//! Event reconciliation: turning a batch of path-level change
//! notifications into tree edits.
//!
//! A batch is processed in sorted path order; each event compares what
//! the snapshot has at the path with what the filesystem now reports
//! there, detaching removed entries, relocating entries whose inode
//! reappeared at a new path (a rename), recording new ones, and
//! refreshing metadata in place. Detached entries that no event
//! re-attaches are swept at the end of the batch, together with their
//! descendants, by retaining exactly the entries whose parent chain
//! still reaches the root.

use vstd::prelude::*;
use crate::entry::{
    Entry, EntryView, PathEntry, git_bytes, git_name, join_path, lower_seq, refresh_bits,
    set_children, set_moved, set_parent,
};
use crate::inode_map::{InodeMap, sorted_by_ino};
use crate::scan::{ChildMetaView, ScanJob, ScanJobView, child_entry_view};
use crate::snapshot::{
    Snapshot, SnapView, bytes_eq, child_listed, coherent, copy_bytes, copy_path, fuel_of,
    inode_at_path, lemma_lookup_nonempty, lemma_reaches_mono, lemma_reaches_restrict,
    reaches_root, tree_m, wf_tree,
};

verus! {

/// What the filesystem reports at an event's path: the stat result and
/// what the ignore rules say of the path.
#[derive(Clone, Copy)]
pub struct FsMeta {
    pub inode: u64,
    pub is_dir: bool,
    pub is_symlink: bool,
    pub rule_ignored: bool,
}

/// One change notification, resolved against the filesystem: the path
/// relative to the root (empty for the root itself), and what now stands
/// there, if anything.
pub struct EventObs {
    pub path: Vec<Vec<u8>>,
    pub fs: Option<FsMeta>,
}

/// The ignore mark an event gives an entry: what the rules matched, or a
/// directory literally named `.git`.
pub open spec fn git_ignored(meta: FsMeta, name: Seq<u8>) -> bool {
    meta.rule_ignored || (meta.is_dir && name == git_name())
}

/// Whether the event's parent path resolves to a present directory that
/// the event's inode may hang from.
pub open spec fn event_np_ok(t0: SnapView, p: Seq<Seq<u8>>, meta: FsMeta) -> bool {
    let npo = inode_at_path(t0, p.drop_last());
    &&& npo is Some
    &&& tree_m(t0).contains_key(npo->0)
    &&& tree_m(t0)[npo->0].is_dir
    &&& npo->0 != meta.inode
    &&& t0.root != Some(meta.inode)
}

/// The map an event leaves behind, by the four cases: nothing at either
/// end is a no-op; gone from the filesystem is a detach; same inode at
/// the path is a metadata refresh; otherwise any stale entry at the path
/// is detached and the inode is relocated if it is already known, or
/// recorded as new.
pub open spec fn event_result(t0: SnapView, p: Seq<Seq<u8>>, fs: Option<FsMeta>) -> Map<
    u64,
    EntryView,
> {
    let m0 = tree_m(t0);
    if p.len() == 0 {
        match fs {
            None => Map::empty(),
            Some(meta) => {
                if t0.root == Some(meta.inode) && m0.contains_key(meta.inode) {
                    m0.insert(
                        meta.inode,
                        refresh_bits(
                            m0[meta.inode],
                            meta.is_symlink,
                            meta.rule_ignored || (meta.is_dir && m0[meta.inode].name
                                == git_name()),
                        ),
                    )
                } else {
                    m0
                }
            },
        }
    } else {
        let snap = inode_at_path(t0, p);
        let name = p.last();
        match fs {
            None => match snap {
                Some(i) => detach_m(m0, i),
                None => m0,
            },
            Some(meta) => {
                if snap == Some(meta.inode) {
                    m0.insert(
                        meta.inode,
                        refresh_bits(m0[meta.inode], meta.is_symlink, git_ignored(meta, name)),
                    )
                } else {
                    let mid = match snap {
                        Some(i2) => detach_m(m0, i2),
                        None => m0,
                    };
                    if !event_np_ok(t0, p, meta) {
                        mid
                    } else {
                        let np = inode_at_path(t0, p.drop_last())->0;
                        let rootname = m0[t0.root->0].name;
                        if m0.contains_key(meta.inode) {
                            let mid2 = if mid[meta.inode].parent is Some {
                                detach_m(mid, meta.inode)
                            } else {
                                mid
                            };
                            attach_m(
                                mid2,
                                meta.inode,
                                np,
                                name,
                                meta.is_symlink,
                                git_ignored(meta, name),
                                lower_seq(join_path(seq![rootname] + p)),
                            )
                        } else {
                            insert_child_m(
                                mid,
                                np,
                                child_entry_view(
                                    np,
                                    true,
                                    seq![rootname] + p.drop_last(),
                                    ChildMetaView {
                                        name,
                                        inode: meta.inode,
                                        is_dir: meta.is_dir,
                                        is_symlink: meta.is_symlink,
                                        rule_ignored: meta.rule_ignored,
                                    },
                                ),
                            )
                        }
                    }
                }
            },
        }
    }
}

/// The root inode an event leaves behind: only the removal of the root
/// itself clears it.
pub open spec fn event_root(t0: SnapView, p: Seq<Seq<u8>>, fs: Option<FsMeta>) -> Option<u64> {
    if p.len() == 0 && fs is None {
        None
    } else {
        t0.root
    }
}

/// Whether events for strict descendants of this event's path are
/// subsumed: a relocated subtree moved as a whole, and a new directory
/// gets a recursive scan of its own.
pub open spec fn event_suppresses(t0: SnapView, p: Seq<Seq<u8>>, fs: Option<FsMeta>) -> bool {
    &&& p.len() > 0
    &&& fs is Some
    &&& inode_at_path(t0, p) != Some(fs->0.inode)
    &&& event_np_ok(t0, p, fs->0)
    &&& (tree_m(t0).contains_key(fs->0.inode) || fs->0.is_dir)
}

/// The recursive scan job an event calls for: one for each directory the
/// snapshot had never seen.
pub open spec fn event_job(t0: SnapView, p: Seq<Seq<u8>>, fs: Option<FsMeta>) -> Option<
    ScanJobView,
> {
    if p.len() > 0 && fs is Some && inode_at_path(t0, p) != Some(fs->0.inode) && event_np_ok(
        t0,
        p,
        fs->0,
    ) && !tree_m(t0).contains_key(fs->0.inode) && fs->0.is_dir {
        Some(
            ScanJobView {
                ino: fs->0.inode,
                relative_path: seq![tree_m(t0)[t0.root->0].name] + p,
                has_matcher: true,
            },
        )
    } else {
        None
    }
}

/// Whether `x` occurs in `s`.
pub open spec fn in_seq(s: Seq<u64>, x: u64) -> bool {
    exists|j: int| 0 <= j < s.len() && #[trigger] s[j] == x
}

/// The children list with every occurrence of `c` removed.
pub open spec fn without_child(cs: Seq<u64>, c: u64) -> Seq<u64>
    decreases cs.len(),
{
    if cs.len() == 0 {
        Seq::empty()
    } else {
        let rest = without_child(cs.drop_last(), c);
        if cs.last() == c {
            rest
        } else {
            rest.push(cs.last())
        }
    }
}

/// What removal keeps: everything but `c`, and nothing new.
pub proof fn lemma_without_child(cs: Seq<u64>, c: u64)
    ensures
        forall|k: int| 0 <= k < without_child(cs, c).len() ==> #[trigger] without_child(cs, c)[k]
            != c && in_seq(cs, without_child(cs, c)[k]),
        forall|j: int| 0 <= j < cs.len() && cs[j] != c ==> in_seq(without_child(cs, c), #[trigger] cs[j]),
        without_child(cs, c).len() <= cs.len(),
    decreases cs.len(),
{
    if cs.len() > 0 {
        let dl = cs.drop_last();
        lemma_without_child(dl, c);
        let r = without_child(cs, c);
        let rest = without_child(dl, c);
        assert forall|k: int| 0 <= k < r.len() implies #[trigger] r[k] != c && in_seq(
            cs,
            r[k],
        ) by {
            if cs.last() == c || k < r.len() - 1 {
                assert(r[k] == rest[k]);
                assert(in_seq(dl, rest[k]));
                let j = choose|j: int| 0 <= j < dl.len() && #[trigger] dl[j] == rest[k];
                assert(cs[j] == rest[k]);
            } else {
                assert(r[k] == cs.last());
                assert(cs[cs.len() - 1] == r[k]);
            }
        }
        assert forall|j: int| 0 <= j < cs.len() && cs[j] != c implies in_seq(
            without_child(cs, c),
            #[trigger] cs[j],
        ) by {
            if j < cs.len() - 1 {
                assert(dl[j] == cs[j]);
                assert(in_seq(rest, dl[j]));
                let k = choose|k: int| 0 <= k < rest.len() && #[trigger] rest[k] == dl[j];
                if cs.last() == c {
                    assert(r[k] == cs[j]);
                } else {
                    assert(r[k] == cs[j]);
                }
            } else {
                assert(r[r.len() - 1] == cs[j]);
            }
        }
    }
}

/// The map after detaching `ino`: its parent's children list loses it,
/// and its own parent link is cleared.
pub open spec fn detach_m(m: Map<u64, EntryView>, ino: u64) -> Map<u64, EntryView> {
    let p = m[ino].parent->0;
    m.insert(p, set_children(m[p], without_child(m[p].children, ino))).insert(
        ino,
        set_parent(m[ino], None),
    )
}

/// The map after attaching the parentless entry `ino` under `np` with a
/// new name and fresh metadata.
pub open spec fn attach_m(
    m: Map<u64, EntryView>,
    ino: u64,
    np: u64,
    name: Seq<u8>,
    is_symlink: bool,
    is_ignored: bool,
    path_chars: Seq<u8>,
) -> Map<u64, EntryView> {
    m.insert(ino, set_moved(m[ino], np, name, is_symlink, is_ignored, path_chars)).insert(
        np,
        set_children(m[np], m[np].children.push(ino)),
    )
}

/// The map after recording the new entry `e` under `np`.
pub open spec fn insert_child_m(m: Map<u64, EntryView>, np: u64, e: EntryView) -> Map<
    u64,
    EntryView,
> {
    m.insert(e.inode, e).insert(np, set_children(m[np], m[np].children.push(e.inode)))
}

impl Snapshot {
    /// Detaches the entry `ino` from its parent: the parent's children
    /// list loses it and its parent link is cleared, leaving it (and its
    /// subtree) for the end-of-batch sweep unless a later event in the
    /// batch re-attaches it.
    pub fn detach(&mut self, ino: u64)
        requires
            old(self).wf(),
            coherent(old(self)@),
            tree_m(old(self)@).contains_key(ino),
            tree_m(old(self)@)[ino].parent is Some,
            old(self)@.entries.len() < usize::MAX,
        ensures
            final(self).wf(),
            coherent(final(self)@),
            final(self)@.root == old(self)@.root,
            final(self)@.root_path == old(self)@.root_path,
            final(self)@.id == old(self)@.id,
            final(self)@.entries.len() == old(self)@.entries.len(),
            tree_m(final(self)@) == detach_m(tree_m(old(self)@), ino),
    {
        let ghost t0 = self@;
        let ghost m0 = tree_m(t0);
        let p = match self.entries.get(ino) {
            Some(e) => match e.parent() {
                Some(p) => p,
                None => {
                    proof {
                        assert(false);
                    }
                    0
                },
            },
            None => {
                proof {
                    assert(false);
                }
                0
            },
        };
        proof {
            assert(p != ino);
        }
        let new_p = {
            match self.entries.get(p) {
                Some(e) => {
                    let cs = children_without(e, ino);
                    e.with_children(cs)
                },
                None => {
                    proof {
                        assert(false);
                    }
                    return ;
                },
            }
        };
        self.entries.insert(new_p);
        let new_i = {
            match self.entries.get(ino) {
                Some(e) => e.with_parent(None),
                None => {
                    proof {
                        assert(false);
                    }
                    return ;
                },
            }
        };
        self.entries.insert(new_i);
        proof {
            let t1 = self@;
            assert(tree_m(t1) =~= detach_m(m0, ino));
            self.entries.lemma_wf_sorted();
            lemma_detach_coherent(t0, t1, ino);
        }
    }

    /// Attaches the parentless entry `ino` under the directory `np`,
    /// giving it the name and metadata the filesystem now reports at its
    /// new path: a rename relocates the entry — and with it its whole
    /// subtree — instead of recreating it, so handles referring to the
    /// inode stay valid.
    pub fn attach(
        &mut self,
        ino: u64,
        np: u64,
        name: Vec<u8>,
        is_symlink: bool,
        is_ignored: bool,
        pe_rel: &Vec<Vec<u8>>,
    )
        requires
            old(self).wf(),
            coherent(old(self)@),
            tree_m(old(self)@).contains_key(ino),
            tree_m(old(self)@)[ino].parent is None,
            old(self)@.root != Some(ino),
            tree_m(old(self)@).contains_key(np),
            tree_m(old(self)@)[np].is_dir,
            np != ino,
            old(self)@.entries.len() < usize::MAX,
        ensures
            final(self).wf(),
            coherent(final(self)@),
            final(self)@.root == old(self)@.root,
            final(self)@.root_path == old(self)@.root_path,
            final(self)@.id == old(self)@.id,
            final(self)@.entries.len() == old(self)@.entries.len(),
            tree_m(final(self)@) == attach_m(
                tree_m(old(self)@),
                ino,
                np,
                name@,
                is_symlink,
                is_ignored,
                crate::entry::lower_seq(crate::entry::join_path(pe_rel.deep_view())),
            ),
    {
        let ghost t0 = self@;
        let ghost m0 = tree_m(t0);
        let new_i = {
            match self.entries.get(ino) {
                Some(e) => e.with_moved(np, name, is_symlink, is_ignored, pe_rel),
                None => {
                    proof {
                        assert(false);
                    }
                    return ;
                },
            }
        };
        self.entries.insert(new_i);
        let new_p = {
            match self.entries.get(np) {
                Some(e) => {
                    let mut cs = children_copy(e);
                    cs.push(ino);
                    e.with_children(cs)
                },
                None => {
                    proof {
                        assert(false);
                    }
                    return ;
                },
            }
        };
        self.entries.insert(new_p);
        proof {
            let t1 = self@;
            assert(tree_m(t1) =~= attach_m(
                m0,
                ino,
                np,
                name@,
                is_symlink,
                is_ignored,
                crate::entry::lower_seq(crate::entry::join_path(pe_rel.deep_view())),
            ));
            self.entries.lemma_wf_sorted();
            lemma_attach_coherent(t0, t1, ino, np);
        }
    }

    /// Records the brand-new entry `e` under the directory `np`: the
    /// entry appears and the directory's children list gains its inode.
    pub fn insert_child(&mut self, np: u64, e: Entry)
        requires
            old(self).wf(),
            coherent(old(self)@),
            !tree_m(old(self)@).contains_key(e@.inode),
            e@.parent == Some(np),
            e@.children.len() == 0,
            tree_m(old(self)@).contains_key(np),
            tree_m(old(self)@)[np].is_dir,
            old(self)@.entries.len() + 1 < usize::MAX,
        ensures
            final(self).wf(),
            coherent(final(self)@),
            final(self)@.root == old(self)@.root,
            final(self)@.root_path == old(self)@.root_path,
            final(self)@.id == old(self)@.id,
            final(self)@.entries.len() == old(self)@.entries.len() + 1,
            tree_m(final(self)@) == insert_child_m(tree_m(old(self)@), np, e@),
    {
        let ghost t0 = self@;
        let ghost m0 = tree_m(t0);
        let ghost ev = e@;
        proof {
            assert(np != ev.inode);
        }
        let e_ino = e.ino();
        self.entries.insert(e);
        let new_p = {
            match self.entries.get(np) {
                Some(pe) => {
                    let mut cs = children_copy(pe);
                    cs.push(e_ino);
                    pe.with_children(cs)
                },
                None => {
                    proof {
                        assert(false);
                    }
                    return ;
                },
            }
        };
        self.entries.insert(new_p);
        proof {
            let t1 = self@;
            assert(tree_m(t1) =~= insert_child_m(m0, np, ev));
            self.entries.lemma_wf_sorted();
            lemma_insert_child_coherent(t0, t1, np, ev);
        }
    }

    /// Refreshes the metadata bits of the entry `ino` in place: the kind,
    /// the name, the parent and the children are unchanged.
    pub fn refresh(&mut self, ino: u64, is_symlink: bool, is_ignored: bool)
        requires
            old(self).wf(),
            coherent(old(self)@),
            tree_m(old(self)@).contains_key(ino),
            old(self)@.entries.len() < usize::MAX,
        ensures
            final(self).wf(),
            coherent(final(self)@),
            final(self)@.root == old(self)@.root,
            final(self)@.root_path == old(self)@.root_path,
            final(self)@.id == old(self)@.id,
            final(self)@.entries.len() == old(self)@.entries.len(),
            tree_m(final(self)@) == tree_m(old(self)@).insert(
                ino,
                refresh_bits(tree_m(old(self)@)[ino], is_symlink, is_ignored),
            ),
    {
        let ghost t0 = self@;
        let new_e = {
            match self.entries.get(ino) {
                Some(e) => e.with_bits(is_symlink, is_ignored),
                None => {
                    proof {
                        assert(false);
                    }
                    return ;
                },
            }
        };
        self.entries.insert(new_e);
        proof {
            let t1 = self@;
            self.entries.lemma_wf_sorted();
            lemma_refresh_coherent(t0, t1, ino);
        }
    }

    /// Empties the snapshot: the root was removed from the filesystem.
    pub fn clear_tree(&mut self)
        ensures
            final(self).wf(),
            wf_tree(final(self)@),
            final(self)@.root is None,
            final(self)@.root_path == old(self)@.root_path,
            final(self)@.id == old(self)@.id,
            final(self)@.entries == Seq::<EntryView>::empty(),
    {
        self.entries = InodeMap::new();
        self.root_inode = None;
        proof {
            assert(tree_m(self@) =~= Map::<u64, EntryView>::empty());
        }
    }
}

/// Whether `x` occurs in `v`.
fn vec_has(v: &Vec<u64>, x: u64) -> (r: bool)
    ensures
        r == in_seq(v@, x),
{
    let n = v.len();
    let mut i: usize = 0;
    while i < n
        invariant
            i <= n,
            n == v@.len(),
            forall|j: int| 0 <= j < i ==> v@[j] != x,
        decreases n - i,
    {
        if v[i] == x {
            return true;
        }
        i = i + 1;
    }
    proof {
        if in_seq(v@, x) {
            let j = choose|j: int| 0 <= j < v@.len() && #[trigger] v@[j] == x;
            assert(false);
        }
    }
    false
}

/// In a coherent tree, a set of inodes that contains the root and is
/// closed under children lists contains every entry whose parent chain
/// reaches the root.
proof fn lemma_reaches_in_closed(t: SnapView, rs: Seq<u64>, x: u64, f: nat)
    requires
        coherent(t),
        t.root is Some,
        in_seq(rs, t.root->0),
        forall|y: u64, k: int|
            #![trigger tree_m(t)[y].children[k]]
            in_seq(rs, y) && tree_m(t).contains_key(y) && 0 <= k < tree_m(t)[y].children.len()
                ==> in_seq(rs, tree_m(t)[y].children[k]),
        reaches_root(t, x, f),
    ensures
        in_seq(rs, x),
    decreases f,
{
    let m = tree_m(t);
    match m[x].parent {
        None => {
            assert(t.root == Some(x));
        },
        Some(p) => {
            lemma_reaches_in_closed(t, rs, p, (f - 1) as nat);
            assert(child_listed(t, p, x));
            let k = choose|k: int| 0 <= k < m[p].children.len() && m[p].children[k] == x;
            assert(m[p].children[k] == x);
        },
    }
}

/// A duplicate-free sequence of inodes that are all present is no longer
/// than the snapshot's entry sequence.
proof fn lemma_reach_bound(t: SnapView, rs: Seq<u64>)
    requires
        sorted_by_ino(t.entries),
        rs.no_duplicates(),
        forall|j: int| 0 <= j < rs.len() ==> tree_m(t).contains_key(#[trigger] rs[j]),
    ensures
        rs.len() <= t.entries.len(),
{
    broadcast use vstd::seq_lib::group_seq_properties;

    rs.unique_seq_to_set();
    crate::inode_map::lemma_map_dom_len(t.entries);
    assert forall|x: u64| rs.to_set().contains(x) implies tree_m(t).dom().contains(x) by {
        let j = choose|j: int| 0 <= j < rs.len() && rs[j] == x;
        assert(tree_m(t).contains_key(rs[j]));
    }
    assert(rs.to_set().subset_of(tree_m(t).dom()));
    vstd::set_lib::lemma_len_subset(rs.to_set(), tree_m(t).dom());
}

impl Snapshot {
    /// The end-of-batch sweep: retains exactly the entries whose parent
    /// chain reaches the root, dropping every detached orphan together
    /// with its descendants. On an already well-formed snapshot the sweep
    /// changes nothing.
    pub fn cleanup(&mut self)
        requires
            old(self).wf(),
            coherent(old(self)@),
        ensures
            final(self).wf(),
            wf_tree(final(self)@),
            final(self)@.root == old(self)@.root,
            final(self)@.root_path == old(self)@.root_path,
            final(self)@.id == old(self)@.id,
            forall|x: u64| #[trigger] tree_m(final(self)@).contains_key(x) <==> tree_m(
                old(self)@,
            ).contains_key(x) && reaches_root(old(self)@, x, fuel_of(old(self)@)),
            forall|x: u64| #[trigger] tree_m(final(self)@).contains_key(x) ==> tree_m(
                final(self)@,
            )[x] == tree_m(old(self)@)[x],
            wf_tree(old(self)@) ==> final(self)@ == old(self)@,
    {
        let ghost t0 = self@;
        let ghost m0 = tree_m(t0);
        let r = match self.root_inode {
            None => {
                proof {
                    assert(t0.entries =~= Seq::<EntryView>::empty());
                    assert(m0 =~= Map::<u64, EntryView>::empty());
                }
                return ;
            },
            Some(r) => r,
        };
        proof {
            self.entries.lemma_wf_sorted();
        }
        // Walk the children lists from the root, collecting every entry
        // still hanging off it.
        let mut reach: Vec<u64> = Vec::new();
        let mut stack: Vec<u64> = Vec::new();
        reach.push(r);
        stack.push(r);
        proof {
            assert(in_seq(reach@, r)) by {
                assert(reach@[0] == r);
            }
            assert(reaches_root(t0, r, 1));
            lemma_reach_bound(t0, reach@);
        }
        while stack.len() > 0
            invariant
                self.wf(),
                self@ == t0,
                coherent(t0),
                t0.root == Some(r),
                tree_m(t0).contains_key(r),
                m0 == tree_m(t0),
                reach@.no_duplicates(),
                in_seq(reach@, r),
                forall|j: int| 0 <= j < reach@.len() ==> m0.contains_key(#[trigger] reach@[j]),
                forall|j: int| 0 <= j < reach@.len() ==> #[trigger] reach@[j] == r || (
                m0[reach@[j]].parent is Some && in_seq(reach@, m0[reach@[j]].parent->0)),
                forall|j: int| 0 <= j < reach@.len() ==> reaches_root(
                    t0,
                    #[trigger] reach@[j],
                    reach@.len() as nat,
                ),
                forall|j: int| 0 <= j < stack@.len() ==> in_seq(reach@, #[trigger] stack@[j]),
                forall|j: int, k: int|
                    #![trigger m0[reach@[j]].children[k]]
                    0 <= j < reach@.len() && !in_seq(stack@, reach@[j]) && 0 <= k
                        < m0[reach@[j]].children.len() ==> in_seq(
                        reach@,
                        m0[reach@[j]].children[k],
                    ),
                reach@.len() <= t0.entries.len(),
            decreases t0.entries.len() + 1 - reach@.len(), stack@.len(),
        {
            let ghost pre_stack = stack@;
            let d = match stack.pop() {
                Some(d) => d,
                None => {
                    proof {
                        assert(false);
                    }
                    return ;
                },
            };
            proof {
                assert(pre_stack[pre_stack.len() - 1] == d);
                assert(in_seq(reach@, d));
                // A node other than the popped one that was on the stack
                // still is: only the top was removed.
                assert forall|x: u64| x != d && in_seq(pre_stack, x) implies in_seq(
                    stack@,
                    x,
                ) by {
                    let ix = choose|ix: int|
                        0 <= ix < pre_stack.len() && #[trigger] pre_stack[ix] == x;
                    assert(ix < pre_stack.len() - 1);
                    assert(stack@[ix] == x);
                }
            }
            let e = match self.entries.get(d) {
                Some(e) => e,
                None => {
                    proof {
                        let j = choose|j: int| 0 <= j < reach@.len() && #[trigger] reach@[j] == d;
                        assert(false);
                    }
                    return ;
                },
            };
            match e {
                Entry::File { .. } => {
                    proof {
                        assert(m0[d].children.len() == 0);
                        assert forall|j: int, k: int|
                            #![trigger m0[reach@[j]].children[k]]
                            0 <= j < reach@.len() && !in_seq(stack@, reach@[j]) && 0 <= k
                                < m0[reach@[j]].children.len() implies in_seq(
                            reach@,
                            m0[reach@[j]].children[k],
                        ) by {
                            if reach@[j] != d {
                                assert(!in_seq(pre_stack, reach@[j]));
                            }
                        }
                    }
                },
                Entry::Dir { children, .. } => {
                    let cn = children.len();
                    let mut k: usize = 0;
                    let ghost reach_len0 = reach@.len();
                    let ghost stack_len0 = stack@.len();
                    while k < cn
                        invariant
                            reach@.len() >= reach_len0,
                            stack@.len() <= stack_len0 + reach@.len() - reach_len0,
                            self.wf(),
                            self@ == t0,
                            coherent(t0),
                            t0.root == Some(r),
                            tree_m(t0).contains_key(r),
                            m0 == tree_m(t0),
                            m0.contains_key(d),
                            cn == m0[d].children.len(),
                            children@ == m0[d].children,
                            k <= cn,
                            reach@.no_duplicates(),
                            in_seq(reach@, r),
                            in_seq(reach@, d),
                            forall|j: int| 0 <= j < reach@.len() ==> m0.contains_key(
                                #[trigger] reach@[j],
                            ),
                            forall|j: int| 0 <= j < reach@.len() ==> #[trigger] reach@[j] == r || (
                            m0[reach@[j]].parent is Some && in_seq(
                                reach@,
                                m0[reach@[j]].parent->0,
                            )),
                            forall|j: int| 0 <= j < reach@.len() ==> reaches_root(
                                t0,
                                #[trigger] reach@[j],
                                reach@.len() as nat,
                            ),
                            forall|j: int| 0 <= j < stack@.len() ==> in_seq(
                                reach@,
                                #[trigger] stack@[j],
                            ),
                            forall|j: int, k2: int|
                                #![trigger m0[reach@[j]].children[k2]]
                                0 <= j < reach@.len() && !in_seq(stack@, reach@[j]) && reach@[j]
                                    != d && 0 <= k2 < m0[reach@[j]].children.len() ==> in_seq(
                                    reach@,
                                    m0[reach@[j]].children[k2],
                                ),
                            forall|k2: int| 0 <= k2 < k ==> in_seq(
                                reach@,
                                #[trigger] m0[d].children[k2],
                            ),
                            reach@.len() <= t0.entries.len(),
                        decreases cn - k,
                    {
                        let c = children[k];
                        proof {
                            assert(m0[d].children[k as int] == c);
                            assert(m0.contains_key(c) && m0[c].parent == Some(d));
                        }
                        if !vec_has(&reach, c) {
                            let ghost pre_reach = reach@;
                            let ghost pre_stk = stack@;
                            reach.push(c);
                            stack.push(c);
                            proof {
                                assert(reach@ =~= pre_reach.push(c));
                                assert(stack@ =~= pre_stk.push(c));
                                assert(reach@[reach@.len() - 1] == c);
                                assert(in_seq(reach@, c));
                                assert(stack@[stack@.len() - 1] == c);
                                assert(in_seq(stack@, c));
                                assert forall|x: u64| in_seq(pre_reach, x) implies in_seq(
                                    reach@,
                                    x,
                                ) by {
                                    let j = choose|j: int|
                                        0 <= j < pre_reach.len() && #[trigger] pre_reach[j] == x;
                                    assert(reach@[j] == x);
                                }
                                assert forall|x: u64| in_seq(pre_stk, x) implies in_seq(
                                    stack@,
                                    x,
                                ) by {
                                    let j = choose|j: int|
                                        0 <= j < pre_stk.len() && #[trigger] pre_stk[j] == x;
                                    assert(stack@[j] == x);
                                }
                                assert(reach@.no_duplicates());
                                // Chains: the new member hangs one step
                                // below a member; older members keep
                                // reaching with the larger bound.
                                assert forall|j: int| 0 <= j < reach@.len() implies reaches_root(
                                    t0,
                                    #[trigger] reach@[j],
                                    reach@.len() as nat,
                                ) by {
                                    if j < pre_reach.len() {
                                        assert(reaches_root(t0, reach@[j], pre_reach.len() as nat));
                                        lemma_reaches_mono(
                                            t0,
                                            reach@[j],
                                            pre_reach.len() as nat,
                                            reach@.len() as nat,
                                        );
                                    } else {
                                        assert(reach@[j] == c);
                                        let jd = choose|jd: int|
                                            0 <= jd < pre_reach.len() && #[trigger] pre_reach[jd]
                                                == d;
                                        assert(reaches_root(t0, d, pre_reach.len() as nat));
                                        assert(reaches_root(t0, c, reach@.len() as nat));
                                    }
                                }
                                lemma_reach_bound(t0, reach@);
                                // The closure-but-for-the-stack fact
                                // carries over: old members keep their
                                // old status, and the new member is on
                                // the stack.
                                assert forall|j: int, k2: int|
                                    #![trigger m0[reach@[j]].children[k2]]
                                    0 <= j < reach@.len() && !in_seq(stack@, reach@[j])
                                        && reach@[j] != d && 0 <= k2
                                        < m0[reach@[j]].children.len() implies in_seq(
                                    reach@,
                                    m0[reach@[j]].children[k2],
                                ) by {
                                    if j < pre_reach.len() {
                                        assert(reach@[j] == pre_reach[j]);
                                        assert(!in_seq(pre_stk, pre_reach[j]));
                                        assert(in_seq(pre_reach, m0[pre_reach[j]].children[k2]));
                                    } else {
                                        assert(reach@[j] == c);
                                        assert(false);
                                    }
                                }
                            }
                        }
                        k = k + 1;
                    }
                    proof {
                        assert forall|j: int, k2: int|
                            #![trigger m0[reach@[j]].children[k2]]
                            0 <= j < reach@.len() && !in_seq(stack@, reach@[j]) && 0 <= k2
                                < m0[reach@[j]].children.len() implies in_seq(
                            reach@,
                            m0[reach@[j]].children[k2],
                        ) by {
                            if reach@[j] == d {
                                assert(in_seq(reach@, m0[d].children[k2]));
                            }
                        }
                    }
                },
            }
        }
        // Rebuild the container from the retained entries, in order.
        let ghost rs = reach@;
        let mut nm = InodeMap::new();
        let n = self.entries.len();
        let mut idx: usize = 0;
        proof {
            crate::inode_map::lemma_map_covers(t0.entries);
            crate::inode_map::lemma_map_index(t0.entries);
        }
        while idx < n
            invariant
                self.wf(),
                self@ == t0,
                m0 == tree_m(t0),
                rs == reach@,
                n == t0.entries.len(),
                idx <= n,
                nm.wf(),
                nm@.len() <= idx,
                forall|x: u64| #[trigger] nm.as_map().contains_key(x) <==> in_seq(rs, x) && exists|
                    i: int,
                |
                    0 <= i < idx && #[trigger] t0.entries[i].inode == x,
                forall|x: u64| #[trigger] nm.as_map().contains_key(x) ==> nm.as_map()[x]
                    == m0[x],
                forall|i: int| 0 <= i < t0.entries.len() ==> m0[#[trigger] t0.entries[i].inode]
                    == t0.entries[i],
                forall|i: int| 0 <= i < t0.entries.len() ==> m0.contains_key(
                    #[trigger] t0.entries[i].inode,
                ),
            decreases n - idx,
        {
            let e = self.entries.entry_at(idx);
            let ino = e.ino();
            proof {
                assert(e@ == t0.entries[idx as int]);
                assert(ino == t0.entries[idx as int].inode);
            }
            if vec_has(&reach, ino) {
                let ghost pre = nm.as_map();
                nm.insert(e.duplicate());
                proof {
                    assert forall|x: u64| #[trigger] nm.as_map().contains_key(x) implies in_seq(
                        rs,
                        x,
                    ) && exists|i: int| 0 <= i < idx + 1 && #[trigger] t0.entries[i].inode == x by {
                        if x == ino {
                            assert(t0.entries[idx as int].inode == x);
                        } else {
                            assert(pre.contains_key(x));
                            let i = choose|i: int|
                                0 <= i < idx && #[trigger] t0.entries[i].inode == x;
                            assert(0 <= i < idx + 1 && t0.entries[i].inode == x);
                        }
                    }
                    assert forall|x: u64|
                        in_seq(rs, x) && exists|i: int|
                            0 <= i < idx + 1 && #[trigger] t0.entries[i].inode == x
                        implies #[trigger] nm.as_map().contains_key(x) by {
                        let i = choose|i: int|
                            0 <= i < idx + 1 && #[trigger] t0.entries[i].inode == x;
                        if i < idx {
                            assert(pre.contains_key(x));
                        }
                    }
                }
            } else {
                proof {
                    assert forall|x: u64|
                        in_seq(rs, x) && exists|i: int|
                            0 <= i < idx + 1 && #[trigger] t0.entries[i].inode == x
                        implies #[trigger] nm.as_map().contains_key(x) by {
                        let i = choose|i: int|
                            0 <= i < idx + 1 && #[trigger] t0.entries[i].inode == x;
                        if i < idx {
                            assert(nm.as_map().contains_key(x));
                        } else {
                            assert(x == ino);
                            assert(false);
                        }
                    }
                    assert forall|x: u64| #[trigger] nm.as_map().contains_key(x) implies in_seq(
                        rs,
                        x,
                    ) && exists|i: int| 0 <= i < idx + 1 && #[trigger] t0.entries[i].inode == x by {
                        let i = choose|i: int|
                            0 <= i < idx && #[trigger] t0.entries[i].inode == x;
                        assert(0 <= i < idx + 1 && t0.entries[i].inode == x);
                    }
                }
            }
            idx = idx + 1;
        }
        proof {
            nm.lemma_wf_sorted();
        }
        let ghost t1 = SnapView { id: t0.id, root_path: t0.root_path, root: t0.root, entries: nm@ };
        proof {
            assert(idx == n);
            let m1 = tree_m(t1);
            assert(m1 == nm.as_map());
            // The retained keys are exactly the walked set.
            assert forall|x: u64| #[trigger] m1.contains_key(x) <==> in_seq(rs, x) by {
                if in_seq(rs, x) {
                    let j = choose|j: int| 0 <= j < rs.len() && #[trigger] rs[j] == x;
                    assert(rs[j] == reach@[j]);
                    assert(m0.contains_key(reach@[j]));
                    assert(m0.contains_key(x));
                    assert(crate::inode_map::key_in_seq(t0.entries, x)) by {
                        crate::inode_map::lemma_map_covers(t0.entries);
                    }
                    let i = choose|i: int|
                        0 <= i < t0.entries.len() && #[trigger] t0.entries[i].inode == x;
                    assert(0 <= i < idx && t0.entries[i].inode == x);
                    assert(m1.contains_key(x));
                }
            }
            // The walked set is exactly what reaches the root.
            assert forall|x: u64| #[trigger] m1.contains_key(x) implies m0.contains_key(x)
                && reaches_root(t0, x, fuel_of(t0)) by {
                let j = choose|j: int| 0 <= j < rs.len() && #[trigger] rs[j] == x;
                assert(reaches_root(t0, rs[j], rs.len() as nat));
                lemma_reaches_mono(t0, x, rs.len() as nat, fuel_of(t0));
            }
            assert forall|x: u64|
                m0.contains_key(x) && reaches_root(t0, x, fuel_of(t0))
                implies #[trigger] m1.contains_key(x) by {
                lemma_reaches_in_closed(t0, rs, x, fuel_of(t0));
            }
            lemma_cleanup_wf(t0, t1, rs);
            if wf_tree(t0) {
                assert forall|x: u64| #[trigger] m0.contains_key(x) implies m1.contains_key(
                    x,
                ) by {
                    assert(reaches_root(t0, x, fuel_of(t0)));
                }
                assert(m1 =~= m0);
                crate::inode_map::lemma_sorted_canonical(t1.entries, t0.entries);
            }
        }
        self.entries = nm;
        proof {
            assert(self@ == t1);
            if wf_tree(t0) {
                assert(self@ == t0);
            }
        }
    }
}

/// Well-formedness of the swept snapshot: every retained entry keeps its
/// record, hangs off a retained parent, and reaches the retained root.
proof fn lemma_cleanup_wf(t0: SnapView, t1: SnapView, rs: Seq<u64>)
    requires
        coherent(t0),
        t0.root is Some,
        in_seq(rs, t0.root->0),
        sorted_by_ino(t1.entries),
        t1.root == t0.root,
        rs.no_duplicates(),
        forall|j: int| 0 <= j < rs.len() ==> tree_m(t0).contains_key(#[trigger] rs[j]),
        forall|j: int| 0 <= j < rs.len() ==> #[trigger] rs[j] == t0.root->0 || (
        tree_m(t0)[rs[j]].parent is Some && in_seq(rs, tree_m(t0)[rs[j]].parent->0)),
        forall|j: int| 0 <= j < rs.len() ==> reaches_root(t0, #[trigger] rs[j], rs.len() as nat),
        forall|j: int, k: int|
            #![trigger tree_m(t0)[rs[j]].children[k]]
            0 <= j < rs.len() && 0 <= k < tree_m(t0)[rs[j]].children.len() ==> in_seq(
                rs,
                tree_m(t0)[rs[j]].children[k],
            ),
        forall|x: u64| #[trigger] tree_m(t1).contains_key(x) <==> in_seq(rs, x),
        forall|x: u64| #[trigger] tree_m(t1).contains_key(x) ==> tree_m(t1)[x] == tree_m(t0)[x],
    ensures
        wf_tree(t1),
{
    let m0 = tree_m(t0);
    let m1 = tree_m(t1);
    let r = t0.root->0;
    // The retained entries are exactly the walked, duplicate-free set, so
    // the walked list is no longer than the new fuel.
    assert(rs.len() == t1.entries.len()) by {
        rs.unique_seq_to_set();
        crate::inode_map::lemma_map_dom_len(t1.entries);
        assert forall|x: u64| #[trigger] rs.to_set().contains(x) implies m1.dom().contains(
            x,
        ) by {
            let j = choose|j: int| 0 <= j < rs.len() && rs[j] == x;
            assert(rs[j] == x);
            assert(in_seq(rs, x));
        }
        assert forall|x: u64| #[trigger] m1.dom().contains(x) implies rs.to_set().contains(
            x,
        ) by {
            let j = choose|j: int| 0 <= j < rs.len() && #[trigger] rs[j] == x;
            assert(rs.contains(x));
        }
        assert(rs.to_set() =~= m1.dom());
    }
    assert(m1.contains_key(r));
    assert(m1[r] == m0[r]);
    assert forall|d: u64, k: int|
        m1.contains_key(d) && 0 <= k < m1[d].children.len() implies {
            &&& m1.contains_key(#[trigger] m1[d].children[k])
            &&& m1[m1[d].children[k]].parent == Some(d)
        } by {
        let j = choose|j: int| 0 <= j < rs.len() && #[trigger] rs[j] == d;
        assert(m1[d] == m0[d]);
        let c = m0[rs[j]].children[k];
        assert(in_seq(rs, c));
        assert(m1.contains_key(c));
        assert(m0.contains_key(c) && m0[c].parent == Some(d));
        assert(m1[c] == m0[c]);
    }
    assert forall|i: u64|
        m1.contains_key(i) && m1[i].parent is Some implies {
            &&& m1.contains_key(#[trigger] m1[i].parent->0)
            &&& m1[m1[i].parent->0].is_dir
            &&& child_listed(t1, m1[i].parent->0, i)
            &&& m1[i].parent != Some(i)
        } by {
        let j = choose|j: int| 0 <= j < rs.len() && #[trigger] rs[j] == i;
        assert(m1[i] == m0[i]);
        let q = m0[i].parent->0;
        assert(rs[j] == r || in_seq(rs, q));
        assert(m0[r].parent is None);
        assert(in_seq(rs, q));
        assert(m1.contains_key(q));
        assert(m1[q] == m0[q]);
        assert(child_listed(t0, q, i));
        let k = choose|k: int| 0 <= k < m0[q].children.len() && m0[q].children[k] == i;
        assert(m1[q].children[k] == i);
        assert(child_listed(t1, q, i));
    }
    assert forall|i: u64| m1.contains_key(i) && m1[i].parent is None implies t1.root == Some(
        i,
    ) by {
        let j = choose|j: int| 0 <= j < rs.len() && #[trigger] rs[j] == i;
        assert(m1[i] == m0[i]);
    }
    assert forall|i: u64| m1.contains_key(i) implies #[trigger] reaches_root(
        t1,
        i,
        fuel_of(t1),
    ) by {
        let j = choose|j: int| 0 <= j < rs.len() && #[trigger] rs[j] == i;
        assert(reaches_root(t0, i, rs.len() as nat));
        assert forall|y: u64| #[trigger] m1.contains_key(y) && m1[y].parent is Some
            implies m1.contains_key(m1[y].parent->0) by {
            let jy = choose|jy: int| 0 <= jy < rs.len() && #[trigger] rs[jy] == y;
            assert(m1[y] == m0[y]);
            assert(rs[jy] == t0.root->0 || in_seq(rs, m0[y].parent->0));
            assert(m0[t0.root->0].parent is None);
        }
        lemma_reaches_restrict(t0, t1, i, rs.len() as nat);
        lemma_reaches_mono(t1, i, rs.len() as nat, fuel_of(t1));
    }
}

/// A rename preserves inode identity: when an event reports an already
/// known inode at a new path, the event relocates the entry — same
/// inode, same kind, same children, hence the same subtree — under the
/// event's parent directory with the event's name, instead of recreating
/// it. A file handle into the moved subtree therefore keeps working; only
/// the path it resolves to changes.
pub proof fn lemma_rename_keeps_inode(t0: SnapView, p: Seq<Seq<u8>>, meta: FsMeta)
    requires
        wf_tree(t0),
        p.len() > 0,
        inode_at_path(t0, p) != Some(meta.inode),
        event_np_ok(t0, p, meta),
        tree_m(t0).contains_key(meta.inode),
    ensures
        ({
            let m1 = event_result(t0, p, Some(meta));
            let np = inode_at_path(t0, p.drop_last())->0;
            &&& m1.contains_key(meta.inode)
            &&& m1[meta.inode].parent == Some(np)
            &&& m1[meta.inode].name == p.last()
            &&& m1[meta.inode].is_dir == tree_m(t0)[meta.inode].is_dir
            &&& m1[meta.inode].children == tree_m(t0)[meta.inode].children
        }),
{
    let m0 = tree_m(t0);
    let snap = inode_at_path(t0, p);
    let np = inode_at_path(t0, p.drop_last())->0;
    let mid = match snap {
        Some(i2) => detach_m(m0, i2),
        None => m0,
    };
    assert(mid[meta.inode] == m0[meta.inode] && mid.contains_key(meta.inode)) by {
        match snap {
            Some(i2) => {
                assert(i2 != meta.inode);
                crate::snapshot::lemma_lookup_step(t0, t0.root->0, p);
                assert(m0[i2].parent == Some(np));
                assert(np != meta.inode);
            },
            None => {},
        }
    }
    let mid2 = if mid[meta.inode].parent is Some {
        detach_m(mid, meta.inode)
    } else {
        mid
    };
    assert(mid2.contains_key(meta.inode)
        && mid2[meta.inode].children == m0[meta.inode].children
        && mid2[meta.inode].is_dir == m0[meta.inode].is_dir) by {
        if mid[meta.inode].parent is Some {
            // Its old parent is a different entry: no entry is its own
            // parent in a well-formed snapshot.
            assert(m0[meta.inode].parent != Some(meta.inode));
        }
    }
}
fn cons_path(head: Vec<u8>, tail: &Vec<Vec<u8>>, take: usize) -> (r: Vec<Vec<u8>>)
    requires
        take <= tail@.len(),
    ensures
        r.deep_view() == seq![head@] + tail.deep_view().subrange(0, take as int),
{
    let mut r: Vec<Vec<u8>> = Vec::new();
    r.push(head);
    let ghost h = r.deep_view();
    proof {
        assert(h =~~= seq![r@[0]@]);
        assert(r.deep_view() =~= h + tail.deep_view().subrange(0, 0));
    }
    let mut i: usize = 0;
    while i < take
        invariant
            i <= take,
            take <= tail@.len(),
            r.deep_view() == h + tail.deep_view().subrange(0, i as int),
        decreases take - i,
    {
        let ghost pre = r.deep_view();
        r.push(copy_bytes(&tail[i]));
        proof {
            assert(r.deep_view() =~~= pre.push(tail.deep_view()[i as int]));
            assert(pre.push(tail.deep_view()[i as int]) =~= h + tail.deep_view().subrange(
                0,
                i + 1,
            ));
        }
        i = i + 1;
    }
    proof {
        assert(r.deep_view() =~= seq![h[0]] + tail.deep_view().subrange(0, take as int));
    }
    r
}

impl Snapshot {
    /// Applies one change event: compares what the snapshot has at the
    /// path with what the filesystem now reports there, and detaches,
    /// relocates, records or refreshes accordingly. Returns the recursive
    /// scan job the event calls for, if any, and whether events for
    /// strict descendants of this path are subsumed. Mid-batch the
    /// snapshot stays coherent; detached subtrees wait for [`Snapshot::cleanup`].
    pub fn apply_event(&mut self, path: &Vec<Vec<u8>>, fs: Option<FsMeta>) -> (r: (
        Option<ScanJob>,
        bool,
    ))
        requires
            old(self).wf(),
            coherent(old(self)@),
            old(self)@.entries.len() + 1 < usize::MAX,
        ensures
            final(self).wf(),
            coherent(final(self)@),
            final(self)@.root_path == old(self)@.root_path,
            final(self)@.id == old(self)@.id,
            final(self)@.entries.len() <= old(self)@.entries.len() + 1,
            tree_m(final(self)@) == event_result(old(self)@, path.deep_view(), fs),
            final(self)@.root == event_root(old(self)@, path.deep_view(), fs),
            r.1 == event_suppresses(old(self)@, path.deep_view(), fs),
            match r.0 {
                Some(j) => event_job(old(self)@, path.deep_view(), fs) == Some(j@),
                None => event_job(old(self)@, path.deep_view(), fs) is None,
            },
    {
        let ghost t0 = self@;
        let ghost m0 = tree_m(t0);
        let ghost p = path.deep_view();
        let git = git_bytes();
        let n = path.len();
        if n == 0 {
            match fs {
                None => {
                    self.clear_tree();
                    return (None, false);
                },
                Some(meta) => {
                    let matches_root = match self.root_inode {
                        Some(r) => r == meta.inode,
                        None => false,
                    };
                    if matches_root {
                        let ign = {
                            match self.entries.get(meta.inode) {
                                Some(e) => meta.rule_ignored || (meta.is_dir && bytes_eq(
                                    e.name(),
                                    &git,
                                )),
                                None => {
                                    proof {
                                        assert(false);
                                    }
                                    false
                                },
                            }
                        };
                        self.refresh(meta.inode, meta.is_symlink, ign);
                        return (None, false);
                    }
                    return (None, false);
                },
            }
        }
        // Resolve everything against the unmutated snapshot first.
        let snap_ino = self.inode_for_path(path);
        let mut ppath = copy_path(path);
        let name = match ppath.pop() {
            Some(x) => x,
            None => {
                proof {
                    assert(false);
                }
                return (None, false);
            },
        };
        proof {
            assert(ppath.deep_view() =~~= p.drop_last());
            assert(name@ =~= p.last());
        }
        let np_opt = self.inode_for_path(&ppath);
        let meta = match fs {
            None => {
                match snap_ino {
                    Some(i) => {
                        proof {
                            lemma_lookup_nonempty(t0, t0.root->0, p);
                        }
                        self.detach(i);
                        return (None, false);
                    },
                    None => {
                        return (None, false);
                    },
                }
            },
            Some(meta) => meta,
        };
        let ign = meta.rule_ignored || (meta.is_dir && bytes_eq(&name, &git));
        proof {
            assert(ign == git_ignored(meta, p.last()));
        }
        let same = match snap_ino {
            Some(i) => i == meta.inode,
            None => false,
        };
        if same {
            proof {
                lemma_lookup_nonempty(t0, t0.root->0, p);
            }
            self.refresh(meta.inode, meta.is_symlink, ign);
            return (None, false);
        }
        // Checks against the unmutated snapshot, before the stale entry
        // at the path is detached.
        let np_ok_pair = match np_opt {
            Some(np) => {
                match self.entries.get(np) {
                    Some(e) => (e.is_dir() && np != meta.inode && self.root_inode != Some(
                        meta.inode,
                    ), np),
                    None => (false, np),
                }
            },
            None => (false, 0),
        };
        let known = self.entries.get(meta.inode).is_some();
        let root_name = match self.root_entry() {
            Some(e) => copy_bytes(e.name()),
            None => Vec::new(),
        };
        // Any stale entry at the path is detached first.
        match snap_ino {
            Some(i2) => {
                proof {
                    lemma_lookup_nonempty(t0, t0.root->0, p);
                }
                self.detach(i2);
            },
            None => {},
        }
        if !np_ok_pair.0 {
            proof {
                assert(!event_np_ok(t0, p, meta));
            }
            return (None, false);
        }
        let np = np_ok_pair.1;
        proof {
            assert(event_np_ok(t0, p, meta));
            assert(t0.root is Some && tree_m(t0).contains_key(t0.root->0));
            assert(root_name@ == m0[t0.root->0].name);
        }
        let pe_rel = cons_path(root_name, path, n);
        proof {
            assert(path.deep_view().subrange(0, n as int) =~= p);
            assert(pe_rel.deep_view() == seq![m0[t0.root->0].name] + p);
        }
        if known {
            // The inode already exists elsewhere: relocate it, keeping
            // its subtree; file handles to it stay valid.
            let parented = match self.entries.get(meta.inode) {
                Some(e) => e.parent().is_some(),
                None => {
                    proof {
                        assert(false);
                    }
                    false
                },
            };
            if parented {
                self.detach(meta.inode);
            }
            self.attach(meta.inode, np, name, meta.is_symlink, ign, &pe_rel);
            return (None, true);
        }
        // A genuinely new entry: record it; a directory gets a recursive
        // scan job of its own.
        let entry = if meta.is_dir {
            Entry::Dir {
                parent: Some(np),
                name,
                inode: meta.inode,
                is_symlink: meta.is_symlink,
                is_ignored: ign,
                children: Vec::new(),
                pending: true,
            }
        } else {
            Entry::File {
                parent: Some(np),
                name,
                inode: meta.inode,
                is_symlink: meta.is_symlink,
                is_ignored: ign,
                path: PathEntry::new(meta.inode, &pe_rel, ign),
            }
        };
        proof {
            let relp = seq![m0[t0.root->0].name] + p.drop_last();
            let cmv = ChildMetaView {
                name: p.last(),
                inode: meta.inode,
                is_dir: meta.is_dir,
                is_symlink: meta.is_symlink,
                rule_ignored: meta.rule_ignored,
            };
            assert(relp.push(cmv.name) =~= seq![m0[t0.root->0].name] + p);
            assert(entry@ == child_entry_view(np, true, relp, cmv));
        }
        self.insert_child(np, entry);
        if meta.is_dir {
            let job = ScanJob { ino: meta.inode, relative_path: pe_rel, has_matcher: true };
            proof {
                assert(job@ == event_job(t0, p, fs)->0);
            }
            (Some(job), true)
        } else {
            (None, false)
        }
    }

    /// Reconciles one batch of change events against the snapshot:
    /// events are handled in sorted path order, duplicates and events
    /// subsumed by a relocated or freshly scanned subtree are dropped,
    /// and detached orphans are swept at the end, so the published
    /// snapshot is well-formed again. An empty batch leaves the snapshot
    /// unchanged. Returns the recursive scan jobs for directories the
    /// snapshot had never seen.
    pub fn process_events(&mut self, events: Vec<EventObs>) -> (jobs: Vec<ScanJob>)
        requires
            old(self).wf(),
            wf_tree(old(self)@),
            old(self)@.entries.len() + events@.len() + 1 < usize::MAX,
        ensures
            final(self).wf(),
            wf_tree(final(self)@),
            final(self)@.root_path == old(self)@.root_path,
            final(self)@.id == old(self)@.id,
            events@.len() == 0 ==> final(self)@ == old(self)@,
            // A single event acts exactly as specified, followed by the
            // orphan sweep: the published entries are a subset of the
            // event's result, unchanged in value, under the event's root.
            events@.len() == 1 ==> ({
                let m_mid = event_result(
                    old(self)@,
                    events@[0].path.deep_view(),
                    events@[0].fs,
                );
                &&& final(self)@.root == event_root(
                    old(self)@,
                    events@[0].path.deep_view(),
                    events@[0].fs,
                )
                &&& forall|x: u64| #[trigger] tree_m(final(self)@).contains_key(x)
                    ==> m_mid.contains_key(x) && tree_m(final(self)@)[x] == m_mid[x]
            }),
    {
        let ghost evs0 = events@;
        let n_all = events.len();
        let events = sort_events(events);
        let mut jobs: Vec<ScanJob> = Vec::new();
        let n = events.len();
        let mut k: usize = 0;
        let mut last_path: Option<Vec<Vec<u8>>> = None;
        let mut skip_prefix: Option<Vec<Vec<u8>>> = None;
        while k < n
            invariant
                k <= n,
                n == events@.len(),
                n == n_all,
                self.wf(),
                coherent(self@),
                self@.root_path == old(self)@.root_path,
                self@.id == old(self)@.id,
                self@.entries.len() <= old(self)@.entries.len() + k,
                old(self)@.entries.len() + n + 1 < usize::MAX,
                n == 0 ==> self@ == old(self)@,
                n == 1 ==> events@ == evs0,
                k == 0 ==> self@ == old(self)@ && last_path is None && skip_prefix is None,
                n == 1 && k == 1 ==> {
                    &&& tree_m(self@) == event_result(
                        old(self)@,
                        evs0[0].path.deep_view(),
                        evs0[0].fs,
                    )
                    &&& self@.root == event_root(
                        old(self)@,
                        evs0[0].path.deep_view(),
                        evs0[0].fs,
                    )
                },
            decreases n - k,
        {
            let ev = &events[k];
            let dup = match &last_path {
                Some(lp) => path_eq(lp, &ev.path),
                None => false,
            };
            let suppressed = if dup {
                true
            } else {
                match &skip_prefix {
                    Some(sp) => is_strict_descendant(&ev.path, sp),
                    None => false,
                }
            };
            if !suppressed {
                skip_prefix = None;
                let (job, suppress) = self.apply_event(&ev.path, ev.fs);
                match job {
                    Some(j) => {
                        jobs.push(j);
                    },
                    None => {},
                }
                if suppress {
                    skip_prefix = Some(copy_path(&ev.path));
                }
            }
            last_path = Some(copy_path(&ev.path));
            k = k + 1;
        }
        self.cleanup();
        jobs
    }
}

/// Lexicographic order on paths, component by component, byte by byte.
fn path_le(a: &Vec<Vec<u8>>, b: &Vec<Vec<u8>>) -> bool {
    let an = a.len();
    let bn = b.len();
    let n = if an < bn {
        an
    } else {
        bn
    };
    let mut i: usize = 0;
    while i < n
        invariant
            i <= n,
            n <= a@.len(),
            n <= b@.len(),
        decreases n - i,
    {
        let ac = &a[i];
        let bc = &b[i];
        let am = ac.len();
        let bm = bc.len();
        let m = if am < bm {
            am
        } else {
            bm
        };
        let mut j: usize = 0;
        while j < m
            invariant
                j <= m,
                m <= ac@.len(),
                m <= bc@.len(),
            decreases m - j,
        {
            if ac[j] < bc[j] {
                return true;
            }
            if ac[j] > bc[j] {
                return false;
            }
            j = j + 1;
        }
        if am < bm {
            return true;
        }
        if am > bm {
            return false;
        }
        i = i + 1;
    }
    an <= bn
}

/// Whether two paths are the same sequence of components.
fn path_eq(a: &Vec<Vec<u8>>, b: &Vec<Vec<u8>>) -> (r: bool)
    ensures
        r == (a.deep_view() == b.deep_view()),
{
    let an = a.len();
    let bn = b.len();
    if an != bn {
        proof {
            assert(a.deep_view().len() != b.deep_view().len());
        }
        return false;
    }
    let mut i: usize = 0;
    while i < an
        invariant
            i <= an,
            an == a@.len() == b@.len(),
            forall|j: int| 0 <= j < i ==> a.deep_view()[j] == b.deep_view()[j],
        decreases an - i,
    {
        if !bytes_eq(&a[i], &b[i]) {
            proof {
                assert(a.deep_view()[i as int] =~= a@[i as int]@);
                assert(b.deep_view()[i as int] =~= b@[i as int]@);
            }
            return false;
        }
        proof {
            assert(a.deep_view()[i as int] =~= a@[i as int]@);
            assert(b.deep_view()[i as int] =~= b@[i as int]@);
        }
        i = i + 1;
    }
    proof {
        assert(a.deep_view() =~= b.deep_view());
    }
    true
}

/// Whether `p` lies strictly below `prefix`.
fn is_strict_descendant(p: &Vec<Vec<u8>>, prefix: &Vec<Vec<u8>>) -> bool {
    let pn = prefix.len();
    if p.len() <= pn {
        return false;
    }
    let mut i: usize = 0;
    while i < pn
        invariant
            i <= pn,
            pn < p@.len(),
            pn == prefix@.len(),
        decreases pn - i,
    {
        if !bytes_eq(&p[i], &prefix[i]) {
            return false;
        }
        i = i + 1;
    }
    true
}

/// Sorts a batch of events by path, so parents are handled before their
/// descendants and equal paths are adjacent.
fn sort_events(events: Vec<EventObs>) -> (r: Vec<EventObs>)
    ensures
        r@.len() == events@.len(),
        events@.len() <= 1 ==> r@ == events@,
{
    if events.len() <= 1 {
        return events;
    }
    let ghost total = events@.len();
    let mut src = events;
    let mut out: Vec<EventObs> = Vec::new();
    while src.len() > 0
        invariant
            out@.len() + src@.len() == total,
        decreases src@.len(),
    {
        let e = match src.pop() {
            Some(e) => e,
            None => {
                proof {
                    assert(false);
                }
                return out;
            },
        };
        // The batch is consumed from the back, so inserting each event
        // before any equal path keeps the batch's first occurrence first.
        let m = out.len();
        let mut pos: usize = 0;
        while pos < m
            invariant
                pos <= m,
                m == out@.len(),
            decreases m - pos,
        {
            if path_le(&e.path, &out[pos].path) {
                break ;
            }
            pos = pos + 1;
        }
        out.insert(pos, e);
    }
    out
}

/// Copies the children list of a directory entry.
fn children_copy(e: &Entry) -> (r: Vec<u64>)
    ensures
        r@ == e@.children,
{
    match e {
        Entry::Dir { children, .. } => {
            let n = children.len();
            let mut r: Vec<u64> = Vec::new();
            let mut i: usize = 0;
            while i < n
                invariant
                    i <= n,
                    n == children@.len(),
                    r@ == children@.subrange(0, i as int),
                decreases n - i,
            {
                r.push(children[i]);
                proof {
                    assert(r@ =~= children@.subrange(0, i + 1));
                }
                i = i + 1;
            }
            proof {
                assert(children@.subrange(0, n as int) =~= children@);
            }
            r
        },
        Entry::File { .. } => Vec::new(),
    }
}

/// Copies the children list of a directory entry, leaving out `c`.
fn children_without(e: &Entry, c: u64) -> (r: Vec<u64>)
    ensures
        r@ == without_child(e@.children, c),
{
    match e {
        Entry::Dir { children, .. } => {
            let n = children.len();
            let mut r: Vec<u64> = Vec::new();
            let mut i: usize = 0;
            proof {
                assert(children@.subrange(0, 0) =~= Seq::<u64>::empty());
            }
            while i < n
                invariant
                    i <= n,
                    n == children@.len(),
                    r@ == without_child(children@.subrange(0, i as int), c),
                decreases n - i,
            {
                let x = children[i];
                proof {
                    assert(children@.subrange(0, i + 1).drop_last() =~= children@.subrange(
                        0,
                        i as int,
                    ));
                    assert(children@.subrange(0, i + 1).last() == children@[i as int]);
                }
                if x != c {
                    r.push(x);
                }
                i = i + 1;
            }
            proof {
                assert(children@.subrange(0, n as int) =~= children@);
            }
            r
        },
        Entry::File { .. } => Vec::new(),
    }
}

/// Detaching keeps the tree coherent: the detached entry is no longer
/// listed anywhere, and everything else is as before.
proof fn lemma_detach_coherent(t0: SnapView, t1: SnapView, ino: u64)
    requires
        coherent(t0),
        tree_m(t0).contains_key(ino),
        tree_m(t0)[ino].parent is Some,
        sorted_by_ino(t1.entries),
        t1.root == t0.root,
        tree_m(t1) == detach_m(tree_m(t0), ino),
    ensures
        coherent(t1),
{
    let m0 = tree_m(t0);
    let m1 = tree_m(t1);
    let p = m0[ino].parent->0;
    assert(p != ino);
    lemma_without_child(m0[p].children, ino);
    // The root is untouched: it has no parent, so it is not `ino`.
    match t0.root {
        None => {},
        Some(r) => {
            assert(r != ino);
            assert(m1.contains_key(r));
            assert(m1[r].parent == m0[r].parent);
        },
    }
    assert forall|d: u64, k: int|
        m1.contains_key(d) && 0 <= k < m1[d].children.len() implies {
            &&& m1.contains_key(#[trigger] m1[d].children[k])
            &&& m1[m1[d].children[k]].parent == Some(d)
        } by {
        let c = m1[d].children[k];
        if d == p {
            assert(c != ino && in_seq(m0[p].children, c));
            let j = choose|j: int| 0 <= j < m0[p].children.len() && #[trigger] m0[p].children[j]
                == c;
            assert(m0[p].children[j] == c);
            assert(m0.contains_key(c) && m0[c].parent == Some(p));
            assert(m1[c].parent == m0[c].parent);
        } else {
            assert(m1[d].children == m0[d].children);
            assert(m0.contains_key(c) && m0[c].parent == Some(d));
            if c == ino {
                // ino was listed only under its parent p.
                assert(false);
            }
            assert(m1[c].parent == m0[c].parent);
        }
    }
    assert forall|i: u64|
        m1.contains_key(i) && m1[i].parent is Some implies {
            &&& m1.contains_key(#[trigger] m1[i].parent->0)
            &&& m1[m1[i].parent->0].is_dir
            &&& child_listed(t1, m1[i].parent->0, i)
            &&& m1[i].parent != Some(i)
        } by {
        assert(i != ino);
        assert(m1[i].parent == m0[i].parent);
        let q = m0[i].parent->0;
        assert(m0.contains_key(q) && m0[q].is_dir && child_listed(t0, q, i));
        let k = choose|k: int| 0 <= k < m0[q].children.len() && m0[q].children[k] == i;
        if q == p {
            assert(m0[q].children[k] == i);
            assert(in_seq(without_child(m0[p].children, ino), i));
            let k2 = choose|k2: int|
                0 <= k2 < without_child(m0[p].children, ino).len() && #[trigger] without_child(
                    m0[p].children,
                    ino,
                )[k2] == i;
            assert(m1[q].children[k2] == i);
            assert(child_listed(t1, q, i));
        } else {
            assert(m1[q].children == m0[q].children);
            assert(m1[q].children[k] == i);
            assert(child_listed(t1, q, i));
        }
    }
}

/// Attaching keeps the tree coherent: the entry gains the new directory
/// as parent and is listed exactly there.
proof fn lemma_attach_coherent(t0: SnapView, t1: SnapView, ino: u64, np: u64)
    requires
        coherent(t0),
        tree_m(t0).contains_key(ino),
        tree_m(t0)[ino].parent is None,
        t0.root != Some(ino),
        tree_m(t0).contains_key(np),
        tree_m(t0)[np].is_dir,
        np != ino,
        sorted_by_ino(t1.entries),
        t1.root == t0.root,
        tree_m(t1).contains_key(ino),
        tree_m(t1)[ino].parent == Some(np),
        tree_m(t1)[ino].is_dir == tree_m(t0)[ino].is_dir,
        tree_m(t1)[ino].children == tree_m(t0)[ino].children,
        tree_m(t1).contains_key(np),
        tree_m(t1)[np] == set_children(tree_m(t0)[np], tree_m(t0)[np].children.push(ino)),
        forall|x: u64| #[trigger] tree_m(t1).contains_key(x) <==> tree_m(t0).contains_key(x),
        forall|x: u64| tree_m(t0).contains_key(x) && x != ino && x != np ==> tree_m(t1)[x]
            == tree_m(t0)[x],
    ensures
        coherent(t1),
{
    let m0 = tree_m(t0);
    let m1 = tree_m(t1);
    // ino is listed nowhere in t0: a listing would give it a parent.
    assert forall|d: u64, k: int|
        m0.contains_key(d) && 0 <= k < m0[d].children.len() implies #[trigger] m0[d].children[k]
            != ino by {
        if m0[d].children[k] == ino {
            assert(m0[ino].parent == Some(d));
        }
    }
    match t0.root {
        None => {},
        Some(r) => {
            assert(m1.contains_key(r));
            assert(r != ino);
            if r == np {
                assert(m1[r].parent == m0[r].parent);
            } else {
                assert(m1[r] == m0[r]);
            }
        },
    }
    assert forall|d: u64, k: int|
        m1.contains_key(d) && 0 <= k < m1[d].children.len() implies {
            &&& m1.contains_key(#[trigger] m1[d].children[k])
            &&& m1[m1[d].children[k]].parent == Some(d)
        } by {
        let c = m1[d].children[k];
        if d == np {
            assert(m1[d].children == m0[np].children.push(ino));
            if k < m0[np].children.len() {
                assert(c == m0[np].children[k]);
                assert(m0.contains_key(c) && m0[c].parent == Some(np));
                assert(c != ino);
                if c == np {
                    assert(m1[c].parent == m0[c].parent);
                } else {
                    assert(m1[c] == m0[c]);
                }
            } else {
                assert(c == ino);
                assert(m1[c].parent == Some(np));
            }
        } else if d == ino {
            assert(m1[d].children == m0[ino].children);
            assert(c == m0[ino].children[k]);
            assert(m0.contains_key(c) && m0[c].parent == Some(ino));
            assert(c != ino);
            if c == np {
                assert(m1[c].parent == m0[c].parent);
            } else {
                assert(m1[c] == m0[c]);
            }
        } else {
            assert(m1[d] == m0[d]);
            assert(c == m0[d].children[k]);
            assert(m0.contains_key(c) && m0[c].parent == Some(d));
            assert(c != ino);
            if c == np {
                assert(m1[c].parent == m0[c].parent);
            } else {
                assert(m1[c] == m0[c]);
            }
        }
    }
    assert forall|i: u64|
        m1.contains_key(i) && m1[i].parent is Some implies {
            &&& m1.contains_key(#[trigger] m1[i].parent->0)
            &&& m1[m1[i].parent->0].is_dir
            &&& child_listed(t1, m1[i].parent->0, i)
            &&& m1[i].parent != Some(i)
        } by {
        if i == ino {
            assert(m1[i].parent == Some(np));
            assert(m1[np].is_dir == m0[np].is_dir);
            assert(m1[np].children == m0[np].children.push(ino));
            assert(m1[np].children[m0[np].children.len() as int] == ino);
            assert(child_listed(t1, np, ino));
        } else {
            assert(m1[i].parent == m0[i].parent);
            let q = m0[i].parent->0;
            assert(m0.contains_key(q) && m0[q].is_dir && child_listed(t0, q, i));
            let k = choose|k: int| 0 <= k < m0[q].children.len() && m0[q].children[k] == i;
            if q == ino {
                assert(m1[q].children == m0[q].children);
                assert(m1[q].children[k] == i);
                assert(child_listed(t1, q, i));
                assert(m1[q].is_dir == m0[q].is_dir);
            } else if q == np {
                assert(m1[q].children == m0[np].children.push(ino));
                assert(m1[q].children[k] == i);
                assert(child_listed(t1, q, i));
            } else {
                assert(m1[q] == m0[q]);
                assert(m1[q].children[k] == i);
                assert(child_listed(t1, q, i));
            }
            assert(m1[q].is_dir);
        }
    }
}

/// Recording a new entry keeps the tree coherent.
proof fn lemma_insert_child_coherent(t0: SnapView, t1: SnapView, np: u64, e: EntryView)
    requires
        coherent(t0),
        !tree_m(t0).contains_key(e.inode),
        e.parent == Some(np),
        e.children.len() == 0,
        tree_m(t0).contains_key(np),
        tree_m(t0)[np].is_dir,
        sorted_by_ino(t1.entries),
        t1.root == t0.root,
        tree_m(t1) == insert_child_m(tree_m(t0), np, e),
    ensures
        coherent(t1),
{
    let m0 = tree_m(t0);
    let m1 = tree_m(t1);
    assert(np != e.inode);
    match t0.root {
        None => {
            // An empty tree has no directory to hang a child from.
            assert(m0 =~= Map::<u64, EntryView>::empty());
        },
        Some(r) => {
            assert(m1.contains_key(r));
            assert(r != e.inode);
            if r == np {
                assert(m1[r].parent == m0[r].parent);
            } else {
                assert(m1[r] == m0[r]);
            }
        },
    }
    assert forall|d: u64, k: int|
        m1.contains_key(d) && 0 <= k < m1[d].children.len() implies {
            &&& m1.contains_key(#[trigger] m1[d].children[k])
            &&& m1[m1[d].children[k]].parent == Some(d)
        } by {
        let c = m1[d].children[k];
        if d == np {
            assert(m1[d].children == m0[np].children.push(e.inode));
            if k < m0[np].children.len() {
                assert(c == m0[np].children[k]);
                assert(m0.contains_key(c) && m0[c].parent == Some(np));
                assert(c != e.inode);
                if c == np {
                    assert(m1[c].parent == m0[c].parent);
                } else {
                    assert(m1[c] == m0[c]);
                }
            } else {
                assert(c == e.inode);
                assert(m1[c] == e);
            }
        } else if d == e.inode {
            assert(m1[d].children.len() == 0);
        } else {
            assert(m1[d] == m0[d]);
            assert(c == m0[d].children[k]);
            assert(m0.contains_key(c) && m0[c].parent == Some(d));
            assert(c != e.inode);
            if c == np {
                assert(m1[c].parent == m0[c].parent);
            } else {
                assert(m1[c] == m0[c]);
            }
        }
    }
    assert forall|i: u64|
        m1.contains_key(i) && m1[i].parent is Some implies {
            &&& m1.contains_key(#[trigger] m1[i].parent->0)
            &&& m1[m1[i].parent->0].is_dir
            &&& child_listed(t1, m1[i].parent->0, i)
            &&& m1[i].parent != Some(i)
        } by {
        if i == e.inode {
            assert(m1[i].parent == Some(np));
            assert(m1[np].children == m0[np].children.push(e.inode));
            assert(m1[np].children[m0[np].children.len() as int] == e.inode);
            assert(child_listed(t1, np, i));
        } else {
            assert(m0.contains_key(i));
            assert(m1[i].parent == m0[i].parent);
            let q = m0[i].parent->0;
            assert(m0.contains_key(q) && m0[q].is_dir && child_listed(t0, q, i));
            let k = choose|k: int| 0 <= k < m0[q].children.len() && m0[q].children[k] == i;
            assert(q != e.inode);
            if q == np {
                assert(m1[q].children == m0[np].children.push(e.inode));
                assert(m1[q].children[k] == i);
                assert(child_listed(t1, q, i));
            } else {
                assert(m1[q] == m0[q]);
                assert(m1[q].children[k] == i);
                assert(child_listed(t1, q, i));
            }
        }
    }
}

/// Refreshing metadata bits keeps the tree coherent: no link changes.
proof fn lemma_refresh_coherent(t0: SnapView, t1: SnapView, ino: u64)
    requires
        coherent(t0),
        tree_m(t0).contains_key(ino),
        sorted_by_ino(t1.entries),
        t1.root == t0.root,
        tree_m(t1) == tree_m(t0).insert(
            ino,
            refresh_bits(tree_m(t0)[ino], tree_m(t1)[ino].is_symlink, tree_m(t1)[ino].is_ignored),
        ),
    ensures
        coherent(t1),
{
    let m0 = tree_m(t0);
    let m1 = tree_m(t1);
    match t0.root {
        None => {},
        Some(r) => {
            assert(m1.contains_key(r));
            if r == ino {
                assert(m1[r].parent == m0[r].parent);
            } else {
                assert(m1[r] == m0[r]);
            }
        },
    }
    assert forall|d: u64, k: int|
        m1.contains_key(d) && 0 <= k < m1[d].children.len() implies {
            &&& m1.contains_key(#[trigger] m1[d].children[k])
            &&& m1[m1[d].children[k]].parent == Some(d)
        } by {
        assert(m1[d].children == m0[d].children);
        let c = m0[d].children[k];
        assert(m0.contains_key(c) && m0[c].parent == Some(d));
        assert(m1[c].parent == m0[c].parent);
    }
    assert forall|i: u64|
        m1.contains_key(i) && m1[i].parent is Some implies {
            &&& m1.contains_key(#[trigger] m1[i].parent->0)
            &&& m1[m1[i].parent->0].is_dir
            &&& child_listed(t1, m1[i].parent->0, i)
            &&& m1[i].parent != Some(i)
        } by {
        assert(m1[i].parent == m0[i].parent);
        let q = m0[i].parent->0;
        assert(m0.contains_key(q) && m0[q].is_dir && child_listed(t0, q, i));
        let k = choose|k: int| 0 <= k < m0[q].children.len() && m0[q].children[k] == i;
        assert(m1[q].children == m0[q].children);
        assert(m1[q].children[k] == i);
        assert(child_listed(t1, q, i));
    }
}

} // verus!
