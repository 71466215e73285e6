pub mod all_fields;
pub mod indexed;
pub mod policy;
pub mod registry;

pub use all_fields::{AllFields, DocumentPart};
pub use policy::{FieldKind, FieldPolicy, IndexPolicy, MatchMode, PolicyError, WeightInterval};
pub use registry::FieldRegistry;
