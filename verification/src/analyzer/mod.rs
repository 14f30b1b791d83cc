pub mod average;
pub mod git;
pub mod hidden;
pub mod mean;
pub mod scanner;

pub use git::{
    CommitRecord, FrequencyMap, GitAnalyzer, HistoryWalk, RepositoryError, WalkAction, WalkEvent,
};
pub use mean::aggregate_metrics;
pub use scanner::{
    count_lines, scan_directory, try_scan_directory, DirEntry, EntryKind, FilesystemError, Listing,
};
