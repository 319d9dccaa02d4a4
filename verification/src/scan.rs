//! The scan steps: the decisions the background scanner makes while
//! crawling the tree.
//!
//! The worker threads that enumerate directories, stat children and
//! evaluate ignore rules live outside the library; they hand each step
//! plain metadata. A step records the entries for one directory's
//! children and finalizes the directory — the same transition the
//! scanner applies under its lock, so readers observe the children list
//! and the child entries together — and returns the scan jobs for the
//! subdirectories found.

use vstd::prelude::*;
use crate::entry::{
    Entry, EntryView, PathEntry, git_bytes, git_name, join_path, lower_seq,
};
use crate::inode_map::sorted_by_ino;
use crate::snapshot::{
    Snapshot, SnapView, bytes_eq, child_listed, copy_bytes, copy_path, fuel_of,
    lemma_reaches_mono, lemma_reaches_transfer, reaches_root, tree_m, wf_tree,
};

verus! {

/// Metadata for one directory child, as the filesystem and the ignore
/// evaluator report it.
pub struct ChildMeta {
    pub name: Vec<u8>,
    pub inode: u64,
    pub is_dir: bool,
    pub is_symlink: bool,
    pub rule_ignored: bool,
}

/// Abstract value of a [`ChildMeta`].
pub struct ChildMetaView {
    pub name: Seq<u8>,
    pub inode: u64,
    pub is_dir: bool,
    pub is_symlink: bool,
    pub rule_ignored: bool,
}

impl View for ChildMeta {
    type V = ChildMetaView;

    open spec fn view(&self) -> ChildMetaView {
        ChildMetaView {
            name: self.name@,
            inode: self.inode,
            is_dir: self.is_dir,
            is_symlink: self.is_symlink,
            rule_ignored: self.rule_ignored,
        }
    }
}

/// A pending recursive scan of one directory.
pub struct ScanJob {
    pub ino: u64,
    pub relative_path: Vec<Vec<u8>>,
    pub has_matcher: bool,
}

/// Abstract value of a [`ScanJob`].
pub struct ScanJobView {
    pub ino: u64,
    pub relative_path: Seq<Seq<u8>>,
    pub has_matcher: bool,
}

impl View for ScanJob {
    type V = ScanJobView;

    open spec fn view(&self) -> ScanJobView {
        ScanJobView {
            ino: self.ino,
            relative_path: self.relative_path.deep_view(),
            has_matcher: self.has_matcher,
        }
    }
}

/// The views of a sequence of child metadata records.
pub open spec fn cm_views(s: Seq<ChildMeta>) -> Seq<ChildMetaView> {
    s.map_values(|c: ChildMeta| c@)
}

/// The views of a sequence of scan jobs.
pub open spec fn job_views(s: Seq<ScanJob>) -> Seq<ScanJobView> {
    s.map_values(|j: ScanJob| j@)
}

/// The inodes of a sequence of child metadata records, in order.
pub open spec fn inos_of(cms: Seq<ChildMetaView>) -> Seq<u64> {
    cms.map_values(|c: ChildMetaView| c.inode)
}

/// Whether some record in `cms` carries the inode `x`.
pub open spec fn cms_have_ino(cms: Seq<ChildMetaView>, x: u64) -> bool {
    exists|j: int| 0 <= j < cms.len() && #[trigger] cms[j].inode == x
}

/// Whether a child is recorded as ignored: everything under an ignored
/// directory (no matcher is passed down), whatever the rules matched,
/// and any directory literally named `.git`.
pub open spec fn child_ignored(has_matcher: bool, cm: ChildMetaView) -> bool {
    if !has_matcher {
        true
    } else {
        cm.rule_ignored || (cm.is_dir && cm.name == git_name())
    }
}

/// The entry recorded for one child of the directory `parent`, whose
/// path relative to the root is `rel`: a pending directory with no
/// children yet, or a file carrying its precomputed matcher data.
pub open spec fn child_entry_view(
    parent: u64,
    has_matcher: bool,
    rel: Seq<Seq<u8>>,
    cm: ChildMetaView,
) -> EntryView {
    EntryView {
        is_dir: cm.is_dir,
        parent: Some(parent),
        name: cm.name,
        inode: cm.inode,
        is_symlink: cm.is_symlink,
        is_ignored: child_ignored(has_matcher, cm),
        children: Seq::empty(),
        pending: cm.is_dir,
        path_chars: if cm.is_dir {
            Seq::empty()
        } else {
            lower_seq(join_path(rel.push(cm.name)))
        },
    }
}

/// The entry recorded for the root of the worktree.
pub open spec fn root_entry_view(cm: ChildMetaView) -> EntryView {
    EntryView {
        is_dir: cm.is_dir,
        parent: None,
        name: cm.name,
        inode: cm.inode,
        is_symlink: cm.is_symlink,
        is_ignored: cm.rule_ignored || (cm.is_dir && cm.name == git_name()),
        children: Seq::empty(),
        pending: cm.is_dir,
        path_chars: if cm.is_dir {
            Seq::empty()
        } else {
            lower_seq(join_path(seq![cm.name]))
        },
    }
}

/// A directory entry finalized after its children were enumerated.
pub open spec fn finalize_dir(v: EntryView, kids: Seq<u64>) -> EntryView {
    EntryView {
        is_dir: v.is_dir,
        parent: v.parent,
        name: v.name,
        inode: v.inode,
        is_symlink: v.is_symlink,
        is_ignored: v.is_ignored,
        children: kids,
        pending: false,
        path_chars: v.path_chars,
    }
}

/// The scan jobs produced for the subdirectories among `cms`, in order:
/// each descends one name below `rel`, and carries a matcher only if the
/// parent had one and the subdirectory is not ignored.
pub open spec fn jobs_of(rel: Seq<Seq<u8>>, has_matcher: bool, cms: Seq<ChildMetaView>) -> Seq<
    ScanJobView,
>
    decreases cms.len(),
{
    if cms.len() == 0 {
        Seq::empty()
    } else {
        jobs_of(rel, has_matcher, cms.drop_last()) + if cms.last().is_dir {
            seq![
                ScanJobView {
                    ino: cms.last().inode,
                    relative_path: rel.push(cms.last().name),
                    has_matcher: has_matcher && !child_ignored(has_matcher, cms.last()),
                },
            ]
        } else {
            Seq::empty()
        }
    }
}

/// A directory named `.git` is recorded as ignored whatever the ignore
/// rules said of it, as a child and as the root alike.
pub proof fn lemma_git_dir_ignored(
    parent: u64,
    has_matcher: bool,
    rel: Seq<Seq<u8>>,
    cm: ChildMetaView,
)
    requires
        cm.is_dir,
        cm.name == git_name(),
    ensures
        child_entry_view(parent, has_matcher, rel, cm).is_ignored,
        root_entry_view(cm).is_ignored,
{
}

/// Re-establishes well-formedness after one scan step: the freshly
/// inserted children hang off the finalized directory, every other
/// entry is untouched, and every parent chain still ends at the root.
proof fn lemma_scan_step_wf(
    t0: SnapView,
    t1: SnapView,
    job_ino: u64,
    hm: bool,
    rel: Seq<Seq<u8>>,
    cms: Seq<ChildMetaView>,
)
    requires
        wf_tree(t0),
        tree_m(t0).contains_key(job_ino),
        tree_m(t0)[job_ino].is_dir,
        tree_m(t0)[job_ino].children.len() == 0,
        forall|j: int| 0 <= j < cms.len() ==> !tree_m(t0).contains_key(#[trigger] cms[j].inode),
        forall|i: int, j: int| 0 <= i < j < cms.len() ==> cms[i].inode != cms[j].inode,
        sorted_by_ino(t1.entries),
        t1.root == t0.root,
        t1.entries.len() == t0.entries.len() + cms.len(),
        forall|x: u64| #[trigger] tree_m(t1).contains_key(x) <==> tree_m(t0).contains_key(x)
            || cms_have_ino(cms, x),
        forall|j: int| 0 <= j < cms.len() ==> tree_m(t1)[#[trigger] cms[j].inode]
            == child_entry_view(job_ino, hm, rel, cms[j]),
        tree_m(t1)[job_ino] == finalize_dir(tree_m(t0)[job_ino], inos_of(cms)),
        forall|x: u64| tree_m(t0).contains_key(x) && x != job_ino ==> tree_m(t1)[x] == tree_m(
            t0,
        )[x],
    ensures
        wf_tree(t1),
{
    let m0 = tree_m(t0);
    let m1 = tree_m(t1);
    let kids = inos_of(cms);
    assert(m1.contains_key(job_ino));
    assert forall|j: int| 0 <= j < cms.len() implies cms[j].inode != job_ino by {
        assert(!m0.contains_key(cms[j].inode));
    }
    // Entries carried over keep their parent links, for chain transfer.
    assert forall|y: u64| #[trigger] m0.contains_key(y) implies m1.contains_key(y)
        && m1[y].parent == m0[y].parent by {
        if y == job_ino {
            assert(m1[y] == finalize_dir(m0[y], kids));
        }
    }
    // The root is still a parentless entry.
    assert(t0.root is Some) by {
        if t0.root is None {
            assert(t0.entries.len() == 0);
            assert(m0 =~= Map::<u64, EntryView>::empty());
        }
    }
    let r = t0.root->0;
    assert(m0.contains_key(r));
    assert(m1[r].parent is None);
    // An entry without a parent is the root.
    assert forall|i: u64| m1.contains_key(i) && m1[i].parent is None implies t1.root == Some(
        i,
    ) by {
        if cms_have_ino(cms, i) {
            let j = choose|j: int| 0 <= j < cms.len() && #[trigger] cms[j].inode == i;
            assert(m1[i] == child_entry_view(job_ino, hm, rel, cms[j]));
            assert(false);
        } else {
            assert(m0.contains_key(i));
            assert(m0[i].parent == m1[i].parent);
        }
    }
    // Every listed child is present and points back at its directory.
    assert forall|d: u64, k: int|
        tree_m(t1).contains_key(d) && 0 <= k < tree_m(t1)[d].children.len() implies {
            &&& tree_m(t1).contains_key(#[trigger] tree_m(t1)[d].children[k])
            &&& tree_m(t1)[tree_m(t1)[d].children[k]].parent == Some(d)
        } by {
        if cms_have_ino(cms, d) {
            let j = choose|j: int| 0 <= j < cms.len() && #[trigger] cms[j].inode == d;
            assert(m1[d] == child_entry_view(job_ino, hm, rel, cms[j]));
        } else if d == job_ino {
            assert(m1[d].children == kids);
            let c = kids[k];
            assert(cms[k].inode == c);
            assert(m1[c] == child_entry_view(job_ino, hm, rel, cms[k]));
        } else {
            assert(m0.contains_key(d));
            assert(m1[d] == m0[d]);
            let c = m0[d].children[k];
            assert(m0.contains_key(c) && m0[c].parent == Some(d));
            if c == job_ino {
                assert(m1[c] == finalize_dir(m0[c], kids));
            } else {
                assert(m1[c] == m0[c]);
            }
        }
    }
    // Every parent link leads to a present directory that lists the
    // entry.
    assert forall|i: u64|
        tree_m(t1).contains_key(i) && tree_m(t1)[i].parent is Some implies {
            &&& tree_m(t1).contains_key(#[trigger] tree_m(t1)[i].parent->0)
            &&& tree_m(t1)[tree_m(t1)[i].parent->0].is_dir
            &&& child_listed(t1, tree_m(t1)[i].parent->0, i)
            &&& tree_m(t1)[i].parent != Some(i)
        } by {
        if cms_have_ino(cms, i) {
            let j = choose|j: int| 0 <= j < cms.len() && #[trigger] cms[j].inode == i;
            assert(m1[i] == child_entry_view(job_ino, hm, rel, cms[j]));
            assert(m1[i].parent == Some(job_ino));
            assert(m1[job_ino].children == kids);
            assert(kids[j] == i);
            assert(child_listed(t1, job_ino, i));
        } else {
            assert(m0.contains_key(i));
            assert(m1[i].parent == m0[i].parent);
            let p = m0[i].parent->0;
            assert(m0.contains_key(p) && m0[p].is_dir && child_listed(t0, p, i));
            let k = choose|k: int| 0 <= k < m0[p].children.len() && m0[p].children[k] == i;
            if p == job_ino {
                // The scanned directory had no children before this
                // step, so nothing pointed at it as a parent.
                assert(m0[p].children.len() == 0);
                assert(false);
            } else {
                assert(m1[p] == m0[p]);
                assert(m1[p].children[k] == i);
                assert(child_listed(t1, p, i));
            }
        }
    }
    // Every parent chain still ends at the root.
    assert forall|i: u64| tree_m(t1).contains_key(i) implies #[trigger] reaches_root(
        t1,
        i,
        fuel_of(t1),
    ) by {
        if cms_have_ino(cms, i) {
            let j = choose|j: int| 0 <= j < cms.len() && #[trigger] cms[j].inode == i;
            assert(m1[i] == child_entry_view(job_ino, hm, rel, cms[j]));
            assert(reaches_root(t0, job_ino, fuel_of(t0)));
            lemma_reaches_transfer(t0, t1, job_ino, fuel_of(t0));
            assert(cms.len() >= 1);
            lemma_reaches_mono(t1, job_ino, fuel_of(t0), (fuel_of(t1) - 1) as nat);
            assert(m1[i].parent == Some(job_ino));
        } else {
            assert(m0.contains_key(i));
            assert(reaches_root(t0, i, fuel_of(t0)));
            lemma_reaches_transfer(t0, t1, i, fuel_of(t0));
            lemma_reaches_mono(t1, i, fuel_of(t0), fuel_of(t1));
        }
    }
}

impl Snapshot {
    /// Records the root of the worktree from its metadata: a pending
    /// directory awaiting its first scan job, or a single file. Returns
    /// the root's scan job when the root is a directory; the root job
    /// always carries the matcher built from the root's ancestors.
    pub fn scan_root(&mut self, meta: &ChildMeta) -> (job: Option<ScanJob>)
        requires
            old(self).wf(),
            old(self)@.root is None,
            old(self)@.entries.len() == 0,
        ensures
            final(self).wf(),
            wf_tree(final(self)@),
            final(self)@.root == Some(meta@.inode),
            final(self)@.root_path == old(self)@.root_path,
            final(self)@.id == old(self)@.id,
            tree_m(final(self)@) == Map::<u64, EntryView>::empty().insert(
                meta@.inode,
                root_entry_view(meta@),
            ),
            match job {
                Some(j) => meta@.is_dir && j@.ino == meta@.inode && j@.relative_path == seq![
                    meta@.name,
                ] && j@.has_matcher,
                None => !meta@.is_dir,
            },
    {
        let ghost t0 = self@;
        proof {
            assert(tree_m(t0) =~= Map::<u64, EntryView>::empty());
        }
        let git = git_bytes();
        let is_ignored = meta.rule_ignored || (meta.is_dir && bytes_eq(&meta.name, &git));
        let mut rel: Vec<Vec<u8>> = Vec::new();
        rel.push(copy_bytes(&meta.name));
        proof {
            assert(rel.deep_view() =~~= seq![meta@.name]);
        }
        let entry = if meta.is_dir {
            Entry::Dir {
                parent: None,
                name: copy_bytes(&meta.name),
                inode: meta.inode,
                is_symlink: meta.is_symlink,
                is_ignored,
                children: Vec::new(),
                pending: true,
            }
        } else {
            Entry::File {
                parent: None,
                name: copy_bytes(&meta.name),
                inode: meta.inode,
                is_symlink: meta.is_symlink,
                is_ignored,
                path: PathEntry::new(meta.inode, &rel, is_ignored),
            }
        };
        proof {
            assert(entry@ == root_entry_view(meta@));
        }
        self.entries.insert(entry);
        self.root_inode = Some(meta.inode);
        proof {
            let t1 = self@;
            assert(tree_m(t1) == Map::<u64, EntryView>::empty().insert(
                meta@.inode,
                root_entry_view(meta@),
            ));
            assert(wf_tree(t1)) by {
                self.entries.lemma_wf_sorted();
                assert forall|i: u64| tree_m(t1).contains_key(i) implies #[trigger] reaches_root(
                    t1,
                    i,
                    fuel_of(t1),
                ) by {
                    assert(i == meta@.inode);
                    assert(tree_m(t1)[i].parent is None);
                }
            }
        }
        if meta.is_dir {
            Some(ScanJob { ino: meta.inode, relative_path: rel, has_matcher: true })
        } else {
            None
        }
    }

    /// One scan step: records the entries for every child found while
    /// enumerating the pending directory of `job`, finalizes that
    /// directory with the children in enumeration order, and returns the
    /// scan jobs for the subdirectories. Child inodes must be new to the
    /// snapshot, as a scan of an unseen directory finds them.
    pub fn scan_dir_step(&mut self, job: &ScanJob, children: &Vec<ChildMeta>) -> (jobs: Vec<
        ScanJob,
    >)
        requires
            old(self).wf(),
            wf_tree(old(self)@),
            tree_m(old(self)@).contains_key(job.ino),
            tree_m(old(self)@)[job.ino].is_dir,
            tree_m(old(self)@)[job.ino].children.len() == 0,
            forall|j: int| 0 <= j < children@.len() ==> !tree_m(old(self)@).contains_key(
                (#[trigger] children@[j])@.inode,
            ),
            forall|i: int, j: int| 0 <= i < j < children@.len() ==> children@[i]@.inode
                != children@[j]@.inode,
            old(self)@.entries.len() + children@.len() < usize::MAX,
        ensures
            final(self).wf(),
            wf_tree(final(self)@),
            final(self)@.root == old(self)@.root,
            final(self)@.root_path == old(self)@.root_path,
            final(self)@.id == old(self)@.id,
            final(self)@.entries.len() == old(self)@.entries.len() + children@.len(),
            forall|x: u64| #[trigger] tree_m(final(self)@).contains_key(x) <==> tree_m(
                old(self)@,
            ).contains_key(x) || cms_have_ino(cm_views(children@), x),
            forall|j: int| 0 <= j < children@.len() ==> tree_m(final(self)@)[(
            #[trigger] cm_views(children@)[j]).inode] == child_entry_view(
                job.ino,
                job.has_matcher,
                job@.relative_path,
                cm_views(children@)[j],
            ),
            tree_m(final(self)@)[job.ino] == finalize_dir(
                tree_m(old(self)@)[job.ino],
                inos_of(cm_views(children@)),
            ),
            forall|x: u64| tree_m(old(self)@).contains_key(x) && x != job.ino ==> tree_m(
                final(self)@,
            )[x] == tree_m(old(self)@)[x],
            job_views(jobs@) == jobs_of(job@.relative_path, job.has_matcher, cm_views(children@)),
    {
        let ghost t0 = self@;
        let ghost cms = cm_views(children@);
        let ghost rel = job@.relative_path;
        // The directory's own record, read before the children change the
        // container.
        let (dir_parent, dir_name, dir_symlink, dir_ignored) = match self.entries.get(job.ino) {
            Some(Entry::Dir { parent, name, is_symlink, is_ignored, .. }) => (
                *parent,
                copy_bytes(name),
                *is_symlink,
                *is_ignored,
            ),
            _ => {
                proof {
                    assert(false);
                }
                (None, Vec::new(), false, false)
            },
        };
        let git = git_bytes();
        let mut kids: Vec<u64> = Vec::new();
        let mut jobs: Vec<ScanJob> = Vec::new();
        let n = children.len();
        let mut k: usize = 0;
        proof {
            assert(cms.subrange(0, 0) =~= Seq::<ChildMetaView>::empty());
            assert(job_views(jobs@) =~= jobs_of(rel, job.has_matcher, cms.subrange(0, 0)));
        }
        while k < n
            invariant
                k <= n,
                n == children@.len(),
                n == cms.len(),
                cms == cm_views(children@),
                rel == job@.relative_path,
                git@ == git_name(),
                self.wf(),
                wf_tree(t0),
                t0 == old(self)@,
                tree_m(t0).contains_key(job.ino),
                forall|j: int| 0 <= j < cms.len() ==> !tree_m(t0).contains_key(
                    #[trigger] cms[j].inode,
                ),
                forall|i: int, j: int| 0 <= i < j < cms.len() ==> cms[i].inode != cms[j].inode,
                t0.entries.len() + n < usize::MAX,
                self@.root == t0.root,
                self@.root_path == t0.root_path,
                self@.id == t0.id,
                self@.entries.len() == t0.entries.len() + k,
                forall|x: u64| #[trigger] tree_m(self@).contains_key(x) <==> tree_m(
                    t0,
                ).contains_key(x) || cms_have_ino(cms.subrange(0, k as int), x),
                forall|j: int| 0 <= j < k ==> tree_m(self@)[(#[trigger] cms[j]).inode]
                    == child_entry_view(job.ino, job.has_matcher, rel, cms[j]),
                forall|x: u64| tree_m(t0).contains_key(x) ==> tree_m(self@)[x] == tree_m(t0)[x],
                kids@.len() == k,
                forall|j: int| 0 <= j < k ==> kids@[j] == (#[trigger] cms[j]).inode,
                job_views(jobs@) == jobs_of(rel, job.has_matcher, cms.subrange(0, k as int)),
            decreases n - k,
        {
            let cm = &children[k];
            proof {
                assert(cms[k as int] == cm@);
            }
            let ignored = if !job.has_matcher {
                true
            } else {
                cm.rule_ignored || (cm.is_dir && bytes_eq(&cm.name, &git))
            };
            proof {
                assert(ignored == child_ignored(job.has_matcher, cms[k as int]));
            }
            let mut child_rel = copy_path(&job.relative_path);
            let ghost pre_rel = child_rel.deep_view();
            child_rel.push(copy_bytes(&cm.name));
            proof {
                assert(child_rel.deep_view() =~~= pre_rel.push(cm@.name));
                assert(child_rel.deep_view() == rel.push(cms[k as int].name));
            }
            let entry = if cm.is_dir {
                Entry::Dir {
                    parent: Some(job.ino),
                    name: copy_bytes(&cm.name),
                    inode: cm.inode,
                    is_symlink: cm.is_symlink,
                    is_ignored: ignored,
                    children: Vec::new(),
                    pending: true,
                }
            } else {
                Entry::File {
                    parent: Some(job.ino),
                    name: copy_bytes(&cm.name),
                    inode: cm.inode,
                    is_symlink: cm.is_symlink,
                    is_ignored: ignored,
                    path: PathEntry::new(cm.inode, &child_rel, ignored),
                }
            };
            proof {
                assert(entry@ == child_entry_view(job.ino, job.has_matcher, rel, cms[k as int]));
            }
            self.entries.insert(entry);
            kids.push(cm.inode);
            if cm.is_dir {
                jobs.push(
                    ScanJob {
                        ino: cm.inode,
                        relative_path: child_rel,
                        has_matcher: job.has_matcher && !ignored,
                    },
                );
            }
            proof {
                assert(cms.subrange(0, k + 1).drop_last() =~= cms.subrange(0, k as int));
                assert(cms.subrange(0, k + 1).last() == cms[k as int]);
                assert(job_views(jobs@) =~= jobs_of(rel, job.has_matcher, cms.subrange(0, k + 1)));
                assert forall|x: u64| #[trigger] tree_m(self@).contains_key(x) implies tree_m(
                    t0,
                ).contains_key(x) || cms_have_ino(cms.subrange(0, k + 1), x) by {
                    if x == cms[k as int].inode {
                        assert(cms.subrange(0, k + 1)[k as int].inode == x);
                    } else if cms_have_ino(cms.subrange(0, k as int), x) {
                        let j = choose|j: int|
                            0 <= j < k && #[trigger] cms.subrange(0, k as int)[j].inode == x;
                        assert(cms.subrange(0, k + 1)[j].inode == x);
                    }
                }
                assert forall|x: u64|
                    tree_m(t0).contains_key(x) || cms_have_ino(cms.subrange(0, k + 1), x)
                        implies #[trigger] tree_m(self@).contains_key(x) by {
                    if cms_have_ino(cms.subrange(0, k + 1), x) {
                        let j = choose|j: int|
                            0 <= j < k + 1 && #[trigger] cms.subrange(0, k + 1)[j].inode == x;
                        if j < k {
                            assert(cms.subrange(0, k as int)[j].inode == x);
                        }
                    }
                }
            }
            k = k + 1;
        }
        proof {
            assert(cms.subrange(0, n as int) =~= cms);
        }
        // Finalize the directory: its children appear together with it.
        let dir_entry = Entry::Dir {
            parent: dir_parent,
            name: dir_name,
            inode: job.ino,
            is_symlink: dir_symlink,
            is_ignored: dir_ignored,
            children: kids,
            pending: false,
        };
        proof {
            assert(kids@ =~= inos_of(cms));
            assert(dir_entry@ == finalize_dir(tree_m(t0)[job.ino], inos_of(cms)));
        }
        self.entries.insert(dir_entry);
        proof {
            let t1 = self@;
            assert forall|x: u64| #[trigger] tree_m(t1).contains_key(x) implies tree_m(
                t0,
            ).contains_key(x) || cms_have_ino(cms, x) by {}
            assert forall|x: u64| tree_m(t0).contains_key(x) || cms_have_ino(cms, x)
                implies #[trigger] tree_m(t1).contains_key(x) by {}
            assert forall|j: int| 0 <= j < cms.len() implies tree_m(t1)[(
            #[trigger] cms[j]).inode] == child_entry_view(
                job.ino,
                job.has_matcher,
                rel,
                cms[j],
            ) by {
                assert(!tree_m(t0).contains_key(cms[j].inode));
                assert(cms[j].inode != job.ino);
            }
            self.entries.lemma_wf_sorted();
            lemma_scan_step_wf(t0, t1, job.ino, job.has_matcher, rel, cms);
        }
        jobs
    }
}

} // verus!
