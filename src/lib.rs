//! Poll-based watching of files that match a pattern: a file is handed to a
//! processing function once its modification time has stayed quiet for a
//! configured threshold.
//!
//! The library holds the decisions of a watch: the status of each tracked
//! path and when it matures, the queue and result maps shared with a pool of
//! workers, when the watch stops, and the final report. The caller performs
//! the scans, metadata reads, deletions, sleeps and threads.
//!
//! All times in this library are nanoseconds as `u64`: wall-clock instants are
//! counted from the UNIX epoch, spans are plain counts.
pub mod laws;
pub mod pool;
pub mod report;
pub mod status;
pub mod stop;
pub mod tracker;
pub mod watcher;

pub use pool::{Outcomes, Poll, WorkQueue};
pub use report::FileResults;
pub use status::FileStatus;
pub use stop::{should_stop, sleep_after, StopCondition};
pub use tracker::Tracker;
pub use watcher::{Watcher, SECOND};
