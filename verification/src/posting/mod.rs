pub mod cursor;
pub mod deleted;
pub mod item;
pub mod list;
pub mod ops;
pub mod positions;
pub mod spec;

pub use item::{Posting, PostingV};
pub use list::{PostingList, PostingListV};
pub use cursor::{PostingCursor, PostingCursorV};
pub use deleted::DeleteSet;
