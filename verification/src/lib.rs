//! Disk-usage engine: a recursive directory-size aggregator over an explicit
//! filesystem snapshot, with a path-keyed write-once size cache, throttled
//! progress events, a parent-linked tree index of the visited subtree, and a
//! cancellable substring search over the cache.

pub mod aggregate;
pub mod cache;
pub mod folder;
pub mod pathkey;
pub mod search;
pub mod snapshot;
pub mod timer;
pub mod tree;

pub use aggregate::{FolderSize, ScanOutcome};
pub use cache::SizeCache;
pub use folder::Folder;
pub use search::CancelFlag;
pub use snapshot::{FsEntry, FsSnapshot};
pub use timer::Timer;
pub use tree::{TreeIndex, TreeScanOutcome};
