//! The worktree facade: the long-lived handle over the scanner's
//! snapshots.
//!
//! The facade holds the most recently published snapshot and the
//! scanner's state, answers read-only queries from that snapshot, and
//! decides when a follow-up poll of the scanner is due. The scanner
//! thread, the notification channel and the timers that drive these
//! decisions live outside the library; so do the file reads and writes
//! of `load_history` and `save`, whose one computed ingredient — the
//! write buffer's capacity — is here. A [`FileHandle`] pairs the
//! worktree's identity with an inode and resolves to a path on each use,
//! so a rename moves the path out from under the handle without
//! invalidating it.

use vstd::prelude::*;
use crate::entry::{Entry, EntryView, Error};
use crate::inode_map::count_files;
use crate::snapshot::{Snapshot, full_path, rel_path, tree_m, wf_tree};

verus! {

/// The scanner's published state: crawling or reconciling, settled, or
/// stopped on the first fatal scan error.
pub enum ScanState {
    Idle,
    Scanning,
    Failed,
}

/// The sequence of file inodes of a snapshot's entries, in inode order.
pub open spec fn file_inos(s: Seq<EntryView>) -> Seq<u64>
    decreases s.len(),
{
    if s.len() == 0 {
        Seq::empty()
    } else {
        file_inos(s.drop_last()) + if s.last().is_dir {
            Seq::empty()
        } else {
            seq![s.last().inode]
        }
    }
}

/// The long-lived handle: the last published snapshot, the scanner's
/// state, and whether a follow-up poll is already scheduled.
pub struct Worktree {
    pub snapshot: Snapshot,
    pub scan_state: ScanState,
    pub poll_scheduled: bool,
}

/// A stable reference to one file: the worktree's identity and the
/// file's inode.
pub struct FileHandle {
    pub worktree_id: usize,
    pub inode: u64,
}

impl Worktree {
    /// The snapshot invariant every published worktree carries.
    pub open spec fn wf(&self) -> bool {
        &&& self.snapshot.wf()
        &&& wf_tree(self.snapshot@)
    }

    /// A new worktree over an empty snapshot, before the first scan.
    pub fn new(id: usize, root_path: Vec<Vec<u8>>) -> (r: Worktree)
        ensures
            r.wf(),
            r.snapshot@.id == id as int,
            r.snapshot@.root_path == root_path.deep_view(),
            r.snapshot@.root is None,
            r.snapshot@.entries == Seq::<EntryView>::empty(),
            r.scan_state is Idle,
            !r.poll_scheduled,
    {
        Worktree {
            snapshot: Snapshot::new(id, root_path),
            scan_state: ScanState::Idle,
            poll_scheduled: false,
        }
    }

    /// A copy of the current snapshot, for readers: they never touch the
    /// scanner's live index.
    pub fn snapshot(&self) -> (r: Snapshot)
        ensures
            r@ == self.snapshot@,
            self.snapshot.wf() ==> r.wf(),
    {
        self.snapshot.cloned()
    }

    /// Whether an absolute path lies under this worktree's root.
    pub fn contains_path(&self, path: &Vec<Vec<u8>>) -> (r: bool)
        ensures
            r == self.snapshot@.root_path.is_prefix_of(path.deep_view()),
    {
        let n = self.snapshot.root_path.len();
        if path.len() < n {
            proof {
                assert(!self.snapshot@.root_path.is_prefix_of(path.deep_view()));
            }
            return false;
        }
        let mut i: usize = 0;
        while i < n
            invariant
                i <= n,
                n == self.snapshot.root_path@.len(),
                n <= path@.len(),
                forall|j: int| 0 <= j < i ==> self.snapshot@.root_path[j] == path.deep_view()[j],
            decreases n - i,
        {
            if !crate::snapshot::bytes_eq(&self.snapshot.root_path[i], &path[i]) {
                proof {
                    assert(self.snapshot@.root_path[i as int] =~= self.snapshot.root_path@[i as int]@);
                    assert(path.deep_view()[i as int] =~= path@[i as int]@);
                    assert(!self.snapshot@.root_path.is_prefix_of(path.deep_view()));
                }
                return false;
            }
            proof {
                assert(self.snapshot@.root_path[i as int] =~= self.snapshot.root_path@[i as int]@);
                assert(path.deep_view()[i as int] =~= path@[i as int]@);
            }
            i = i + 1;
        }
        proof {
            assert(self.snapshot@.root_path =~= path.deep_view().subrange(0, n as int));
        }
        true
    }

    /// Strips the root path off an absolute path, for event processing:
    /// an event for a path outside the root is an error the caller logs
    /// and skips.
    pub fn relativize(&self, path: &Vec<Vec<u8>>) -> (r: Result<Vec<Vec<u8>>, Error>)
        ensures
            match r {
                Ok(rel) => self.snapshot@.root_path.is_prefix_of(path.deep_view())
                    && rel.deep_view() == path.deep_view().skip(
                    self.snapshot@.root_path.len() as int,
                ),
                Err(e) => !self.snapshot@.root_path.is_prefix_of(path.deep_view()) && e
                    == Error::PathOutOfRoot,
            },
    {
        if !self.contains_path(path) {
            return Err(Error::PathOutOfRoot);
        }
        let n = self.snapshot.root_path.len();
        let m = path.len();
        let mut rel: Vec<Vec<u8>> = Vec::new();
        let mut i: usize = n;
        proof {
            assert(rel.deep_view() =~= path.deep_view().subrange(n as int, n as int));
        }
        while i < m
            invariant
                n <= i <= m,
                m == path@.len(),
                rel.deep_view() == path.deep_view().subrange(n as int, i as int),
            decreases m - i,
        {
            let ghost pre = rel.deep_view();
            rel.push(crate::snapshot::copy_bytes(&path[i]));
            proof {
                assert(rel.deep_view() =~~= pre.push(path.deep_view()[i as int]));
                assert(pre.push(path.deep_view()[i as int]) =~= path.deep_view().subrange(
                    n as int,
                    i + 1,
                ));
            }
            i = i + 1;
        }
        proof {
            assert(path.deep_view().subrange(n as int, m as int) =~= path.deep_view().skip(
                n as int,
            ));
        }
        Ok(rel)
    }

    /// Whether an entry with this inode is present.
    pub fn has_inode(&self, ino: u64) -> (r: bool)
        requires
            self.wf(),
        ensures
            r == tree_m(self.snapshot@).contains_key(ino),
    {
        self.snapshot.has_inode(ino)
    }

    /// The number of files under the root, from the root summary.
    pub fn file_count(&self) -> (r: usize)
        requires
            self.wf(),
        ensures
            r == count_files(self.snapshot@.entries),
    {
        self.snapshot.file_count()
    }

    /// The path of an inode, relative to the root or with the root's own
    /// name first.
    pub fn path_for_inode(&self, ino: u64, include_root: bool) -> (r: Result<Vec<Vec<u8>>, Error>)
        requires
            self.wf(),
        ensures
            match r {
                Ok(p) => tree_m(self.snapshot@).contains_key(ino) && p.deep_view() == (
                if include_root {
                    full_path(self.snapshot@, ino)
                } else {
                    rel_path(self.snapshot@, ino)
                }),
                Err(e) => !tree_m(self.snapshot@).contains_key(ino) && e == Error::NotFound(ino),
            },
    {
        self.snapshot.path_for_inode(ino, include_root)
    }

    /// The absolute path of an inode: the root's path plus the inode's
    /// relative path.
    pub fn abs_path_for_inode(&self, ino: u64) -> (r: Result<Vec<Vec<u8>>, Error>)
        requires
            self.wf(),
        ensures
            match r {
                Ok(p) => tree_m(self.snapshot@).contains_key(ino) && p.deep_view()
                    == self.snapshot@.root_path + rel_path(self.snapshot@, ino),
                Err(e) => !tree_m(self.snapshot@).contains_key(ino) && e == Error::NotFound(ino),
            },
    {
        self.snapshot.abs_path_for_inode(ino)
    }

    /// The inodes of all file entries, in inode order.
    pub fn files(&self) -> (r: Vec<u64>)
        requires
            self.wf(),
        ensures
            r@ == file_inos(self.snapshot@.entries),
    {
        let ghost s = self.snapshot@.entries;
        let n = self.snapshot.entries.len();
        let mut r: Vec<u64> = Vec::new();
        let mut i: usize = 0;
        proof {
            assert(s.subrange(0, 0) =~= Seq::<EntryView>::empty());
        }
        while i < n
            invariant
                i <= n,
                n == s.len(),
                s == self.snapshot@.entries,
                r@ == file_inos(s.subrange(0, i as int)),
            decreases n - i,
        {
            let e = self.snapshot.entries.entry_at(i);
            proof {
                assert(s.subrange(0, i + 1).drop_last() =~= s.subrange(0, i as int));
                assert(s.subrange(0, i + 1).last() == s[i as int]);
            }
            if !e.is_dir() {
                r.push(e.ino());
                proof {
                    assert(r@ =~= file_inos(s.subrange(0, i as int)) + seq![s[i as int].inode]);
                }
            }
            i = i + 1;
        }
        proof {
            assert(s.subrange(0, n as int) =~= s);
        }
        r
    }

    /// A stable handle to the file with this inode; an error if the
    /// inode is unknown.
    pub fn file(&self, ino: u64) -> (r: Result<FileHandle, Error>)
        requires
            self.wf(),
        ensures
            match r {
                Ok(h) => tree_m(self.snapshot@).contains_key(ino) && h.worktree_id
                    == self.snapshot@.id && h.inode == ino,
                Err(e) => !tree_m(self.snapshot@).contains_key(ino) && e == Error::NotFound(ino),
            },
    {
        if self.has_inode(ino) {
            Ok(FileHandle { worktree_id: self.snapshot.id, inode: ino })
        } else {
            Err(Error::NotFound(ino))
        }
    }

    /// Whether the scanner is mid-crawl or mid-reconciliation.
    pub fn is_scanning(&self) -> (r: bool)
        ensures
            r == (self.scan_state is Scanning),
    {
        match self.scan_state {
            ScanState::Scanning => true,
            _ => false,
        }
    }

    /// The decision taken on each scanner notification: adopt the state
    /// and the freshly published snapshot, and say whether a follow-up
    /// poll must be scheduled — exactly when the scanner is still busy
    /// and no poll is pending yet.
    pub fn observe_scan_state(&mut self, state: ScanState, latest: Snapshot) -> (schedule: bool)
        requires
            latest.wf(),
            wf_tree(latest@),
        ensures
            final(self).wf(),
            final(self).snapshot@ == latest@,
            final(self).scan_state == state,
            schedule == (state is Scanning && !old(self).poll_scheduled),
            final(self).poll_scheduled == (old(self).poll_scheduled || schedule),
    {
        self.scan_state = state;
        self.snapshot = latest;
        let schedule = self.is_scanning() && !self.poll_scheduled;
        if schedule {
            self.poll_scheduled = true;
        }
        schedule
    }

    /// The decision taken when a scheduled poll fires: adopt the fresh
    /// snapshot, and schedule another poll exactly while the scanner is
    /// still busy.
    pub fn poll_fired(&mut self, latest: Snapshot) -> (schedule: bool)
        requires
            latest.wf(),
            wf_tree(latest@),
        ensures
            final(self).wf(),
            final(self).snapshot@ == latest@,
            final(self).scan_state == old(self).scan_state,
            schedule == (old(self).scan_state is Scanning),
            final(self).poll_scheduled == schedule,
    {
        self.poll_scheduled = false;
        self.snapshot = latest;
        let schedule = self.is_scanning();
        if schedule {
            self.poll_scheduled = true;
        }
        schedule
    }
}

impl FileHandle {
    /// The stable identity of the handled file.
    pub fn entry_id(&self) -> (r: (usize, u64))
        ensures
            r.0 == self.worktree_id,
            r.1 == self.inode,
    {
        (self.worktree_id, self.inode)
    }

    /// The file's current path relative to the root, resolved against
    /// the given worktree on each use: a rename changes what this
    /// returns, never whether the handle works.
    pub fn path(&self, tree: &Worktree) -> (r: Result<Vec<Vec<u8>>, Error>)
        requires
            tree.wf(),
        ensures
            match r {
                Ok(p) => tree_m(tree.snapshot@).contains_key(self.inode) && p.deep_view()
                    == rel_path(tree.snapshot@, self.inode),
                Err(e) => !tree_m(tree.snapshot@).contains_key(self.inode) && e
                    == Error::NotFound(self.inode),
            },
    {
        tree.path_for_inode(self.inode, false)
    }
}

/// The capacity of the buffered writer used to save a file: the content
/// size, capped at ten kibibytes.
pub fn save_buffer_size(total_bytes: usize) -> (r: usize)
    ensures
        r == (if total_bytes < 10240 {
            total_bytes as int
        } else {
            10240int
        }),
{
    if total_bytes < 10240 {
        total_bytes
    } else {
        10240
    }
}

} // verus!
