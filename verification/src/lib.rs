//! Runs a command when a watched path changes.
//!
//! The paths to watch are named exactly or by extended glob patterns. Each look at the
//! file system gives a snapshot; two snapshots in a row are compared, and the first
//! difference sets off the command, with the details of the difference in the place of
//! the placeholders of its text.

pub mod explorers;
pub mod jfswatch;
pub mod template;
pub mod text;
pub mod watched_fs;

pub use explorers::ExactExplorer;
pub use explorers::Explorer;
pub use explorers::GlobExplorer;
pub use explorers::PathExplorer;
pub use jfswatch::JFSWatch;
pub use watched_fs::FSDifference;
pub use watched_fs::Timestamp;
pub use watched_fs::WatchedFS;
