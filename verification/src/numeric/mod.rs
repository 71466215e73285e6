pub mod bkd;
pub mod columns;
pub mod doc_values;
pub mod fields;
pub mod points;
pub mod values;

pub use bkd::Bkd;
pub use doc_values::DocValues;
pub use fields::{NumericField, NumericFields};
pub use points::{in_bounds, pack, unpack, NumericBound, NumericValue};
pub use values::{pack_float_bits, pack_int, packed_in_bounds, unpack_float_bits, unpack_int, NumericKind, PackedBound};
