pub mod codec;
pub mod error;
pub mod format;
pub mod bytes;
pub mod writer;
pub mod reader;
pub mod postings;
pub mod segment;
pub mod segment_writer;
