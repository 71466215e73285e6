pub mod cursor;
pub mod manifest;
pub mod progress;
pub mod wal;

pub use manifest::{BackupError, BackupManifest, BackupType, SegmentDiff};
pub use progress::{BackupPhase, BackupProgress, BackupProgressSnapshot};
pub use wal::parse_wal_records;
