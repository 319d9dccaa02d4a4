//! An in-memory, queryable index of a directory subtree.
//!
//! The index is a snapshot of the tree keyed by inode: an ordered map of
//! entries, a root inode, and the root's filesystem path. A background
//! scanner populates the snapshot with an initial recursive crawl and then
//! keeps it consistent by reconciling batches of path-level change events;
//! readers query cheap clones of the snapshot. The pure logic — the entry
//! model, the ordered inode map, path resolution, the per-directory scan
//! step, and event reconciliation — lives here, with its behaviour stated
//! in contracts; the filesystem syscalls, the ignore-rule evaluation and
//! the worker threads that drive it live outside the library and hand it
//! plain values.

pub mod entry;
pub mod inode_map;
pub mod snapshot;
pub mod scan;
pub mod reconcile;
pub mod worktree;
