//! The snapshot: a point-in-time view of the worktree, bundling the inode
//! map, the root inode and the root path, with path→inode and inode→path
//! resolution.
//!
//! Names and paths are byte strings, as the filesystem reports them: a
//! name is a `Vec<u8>`, a path a `Vec<Vec<u8>>` of components.

use vstd::prelude::*;
use crate::entry::{Entry, EntryView, Error};
use crate::inode_map::{InodeMap, count_files, seq_as_map, sorted_by_ino};

verus! {

/// Abstract value of a [`Snapshot`].
pub struct SnapView {
    pub id: int,
    pub root_path: Seq<Seq<u8>>,
    pub root: Option<u64>,
    pub entries: Seq<EntryView>,
}

/// A point-in-time, read-only view of the worktree.
pub struct Snapshot {
    pub id: usize,
    pub root_path: Vec<Vec<u8>>,
    pub root_inode: Option<u64>,
    pub entries: InodeMap,
}

impl View for Snapshot {
    type V = SnapView;

    open spec fn view(&self) -> SnapView {
        SnapView {
            id: self.id as int,
            root_path: self.root_path.deep_view(),
            root: self.root_inode,
            entries: self.entries@,
        }
    }
}

/// The map from inode to entry view that a snapshot holds.
pub open spec fn tree_m(t: SnapView) -> Map<u64, EntryView> {
    seq_as_map(t.entries)
}

/// Whether `c` is listed among the children of `p` in `t`.
pub open spec fn child_listed(t: SnapView, p: u64, c: u64) -> bool {
    exists|k: int| 0 <= k < tree_m(t)[p].children.len() && tree_m(t)[p].children[k] == c
}

/// The structural coherence that holds even in the middle of a
/// reconciliation batch: entries are key-ordered; the root, when present,
/// is an entry without a parent (and when absent the tree is empty); every
/// listed child is present and points back at its directory; and every
/// parent link leads to a present directory that lists the entry.
pub open spec fn coherent(t: SnapView) -> bool {
    &&& sorted_by_ino(t.entries)
    &&& match t.root {
        None => t.entries.len() == 0,
        Some(r) => tree_m(t).contains_key(r) && tree_m(t)[r].parent is None,
    }
    &&& forall|d: u64, k: int|
        #![trigger tree_m(t)[d].children[k]]
        tree_m(t).contains_key(d) && 0 <= k < tree_m(t)[d].children.len() ==> {
            &&& tree_m(t).contains_key(tree_m(t)[d].children[k])
            &&& tree_m(t)[tree_m(t)[d].children[k]].parent == Some(d)
        }
    &&& forall|i: u64|
        #![trigger tree_m(t)[i].parent]
        tree_m(t).contains_key(i) && tree_m(t)[i].parent is Some ==> {
            &&& tree_m(t).contains_key(tree_m(t)[i].parent->0)
            &&& tree_m(t)[tree_m(t)[i].parent->0].is_dir
            &&& child_listed(t, tree_m(t)[i].parent->0, i)
            &&& tree_m(t)[i].parent != Some(i)
        }
}

/// The fuel that bounds every parent chain of a well-formed snapshot.
pub open spec fn fuel_of(t: SnapView) -> nat {
    t.entries.len() + 1
}

/// Whether the parent chain from `i` ends at the root within `fuel` steps.
pub open spec fn reaches_root(t: SnapView, i: u64, fuel: nat) -> bool
    decreases fuel,
{
    if fuel == 0 {
        false
    } else if !tree_m(t).contains_key(i) {
        false
    } else {
        match tree_m(t)[i].parent {
            None => t.root == Some(i),
            Some(p) => reaches_root(t, p, (fuel - 1) as nat),
        }
    }
}

/// Well-formedness of a published snapshot: coherence, plus: an entry
/// without a parent is the root, and every entry's parent chain ends at
/// the root.
pub open spec fn wf_tree(t: SnapView) -> bool {
    &&& coherent(t)
    &&& forall|i: u64|
        #![trigger tree_m(t)[i].parent]
        tree_m(t).contains_key(i) && tree_m(t)[i].parent is None ==> t.root == Some(i)
    &&& forall|i: u64|
        tree_m(t).contains_key(i) ==> #[trigger] reaches_root(t, i, fuel_of(t))
}

/// The first child among `children` whose entry in `t` carries `name`.
pub open spec fn find_child(t: SnapView, children: Seq<u64>, name: Seq<u8>) -> Option<u64>
    decreases children.len(),
{
    if children.len() == 0 {
        None
    } else if tree_m(t).contains_key(children[0]) && tree_m(t)[children[0]].name == name {
        Some(children[0])
    } else {
        find_child(t, children.drop_first(), name)
    }
}

/// Walks from `cur` down the children lists, one path component at a
/// time.
pub open spec fn lookup_from(t: SnapView, cur: u64, path: Seq<Seq<u8>>) -> Option<u64>
    decreases path.len(),
{
    if path.len() == 0 {
        Some(cur)
    } else if !tree_m(t).contains_key(cur) {
        None
    } else if !tree_m(t)[cur].is_dir {
        None
    } else {
        match find_child(t, tree_m(t)[cur].children, path[0]) {
            None => None,
            Some(c) => lookup_from(t, c, path.drop_first()),
        }
    }
}

/// The inode at a path relative to the root, if any.
pub open spec fn inode_at_path(t: SnapView, path: Seq<Seq<u8>>) -> Option<u64> {
    match t.root {
        None => None,
        Some(r) => lookup_from(t, r, path),
    }
}

/// The names along the parent chain of `i`, root's own name first,
/// computed with explicit fuel.
pub open spec fn full_path_of(t: SnapView, i: u64, fuel: nat) -> Seq<Seq<u8>>
    decreases fuel,
{
    if fuel == 0 {
        Seq::empty()
    } else if !tree_m(t).contains_key(i) {
        Seq::empty()
    } else {
        match tree_m(t)[i].parent {
            None => seq![tree_m(t)[i].name],
            Some(p) => full_path_of(t, p, (fuel - 1) as nat).push(tree_m(t)[i].name),
        }
    }
}

/// The path of `i` including the root's own name.
pub open spec fn full_path(t: SnapView, i: u64) -> Seq<Seq<u8>> {
    full_path_of(t, i, fuel_of(t))
}

/// The path of `i` relative to the root.
pub open spec fn rel_path(t: SnapView, i: u64) -> Seq<Seq<u8>> {
    full_path(t, i).drop_first()
}

/// More fuel never turns a reaching chain into a failing one.
pub proof fn lemma_reaches_mono(t: SnapView, i: u64, f1: nat, f2: nat)
    requires
        reaches_root(t, i, f1),
        f1 <= f2,
    ensures
        reaches_root(t, i, f2),
    decreases f1,
{
    if tree_m(t)[i].parent is Some {
        lemma_reaches_mono(t, tree_m(t)[i].parent->0, (f1 - 1) as nat, (f2 - 1) as nat);
    }
}

/// Once the chain reaches the root within the fuel, the computed path no
/// longer depends on the fuel.
pub proof fn lemma_full_path_stable(t: SnapView, i: u64, f1: nat, f2: nat)
    requires
        reaches_root(t, i, f1),
        f1 <= f2,
    ensures
        full_path_of(t, i, f2) == full_path_of(t, i, f1),
    decreases f1,
{
    if tree_m(t)[i].parent is Some {
        lemma_full_path_stable(t, tree_m(t)[i].parent->0, (f1 - 1) as nat, (f2 - 1) as nat);
    }
}

/// In a well-formed snapshot, an entry with a parent sits one name below
/// its parent's path, and the parent's chain has a step of fuel to spare.
pub proof fn lemma_parent_path(t: SnapView, x: u64)
    requires
        wf_tree(t),
        tree_m(t).contains_key(x),
        tree_m(t)[x].parent is Some,
    ensures
        tree_m(t).contains_key(tree_m(t)[x].parent->0),
        reaches_root(t, tree_m(t)[x].parent->0, (fuel_of(t) - 1) as nat),
        full_path(t, x) == full_path(t, tree_m(t)[x].parent->0).push(tree_m(t)[x].name),
{
    let p = tree_m(t)[x].parent->0;
    assert(reaches_root(t, x, fuel_of(t)));
    assert(reaches_root(t, p, (fuel_of(t) - 1) as nat));
    lemma_full_path_stable(t, p, (fuel_of(t) - 1) as nat, fuel_of(t));
}

/// A chain that reaches the root never steps from an entry to itself.
pub proof fn lemma_no_self_parent(t: SnapView, i: u64, f: nat)
    requires
        reaches_root(t, i, f),
    ensures
        tree_m(t)[i].parent != Some(i),
    decreases f,
{
    if tree_m(t)[i].parent == Some(i) {
        lemma_no_self_parent(t, i, (f - 1) as nat);
    }
}

/// Reaching the root transfers to any snapshot that keeps the root and
/// every present entry's parent link.
pub proof fn lemma_reaches_transfer(t1: SnapView, t2: SnapView, i: u64, f: nat)
    requires
        t1.root == t2.root,
        forall|y: u64| #[trigger] tree_m(t1).contains_key(y) ==> tree_m(t2).contains_key(y)
            && tree_m(t2)[y].parent == tree_m(t1)[y].parent,
        reaches_root(t1, i, f),
    ensures
        reaches_root(t2, i, f),
    decreases f,
{
    if tree_m(t1)[i].parent is Some {
        lemma_reaches_transfer(t1, t2, tree_m(t1)[i].parent->0, (f - 1) as nat);
    }
}

/// Reaching the root transfers down to a parent-closed restriction of the
/// snapshot: if every retained entry keeps its parent link and its parent
/// is retained too, a retained entry's chain still reaches the root.
pub proof fn lemma_reaches_restrict(t1: SnapView, t2: SnapView, i: u64, f: nat)
    requires
        t1.root == t2.root,
        forall|y: u64| #[trigger] tree_m(t2).contains_key(y) ==> tree_m(t1).contains_key(y)
            && tree_m(t2)[y].parent == tree_m(t1)[y].parent,
        forall|y: u64| #[trigger] tree_m(t2).contains_key(y) && tree_m(t2)[y].parent is Some
            ==> tree_m(t2).contains_key(tree_m(t2)[y].parent->0),
        tree_m(t2).contains_key(i),
        reaches_root(t1, i, f),
    ensures
        reaches_root(t2, i, f),
    decreases f,
{
    if tree_m(t1)[i].parent is Some {
        lemma_reaches_restrict(t1, t2, tree_m(t1)[i].parent->0, (f - 1) as nat);
    }
}

/// In a coherent snapshot, a nonempty path resolves, if at all, to a
/// present entry that has a parent — the last directory walked through —
/// and so never to the root.
pub proof fn lemma_lookup_nonempty(t: SnapView, cur: u64, path: Seq<Seq<u8>>)
    requires
        coherent(t),
        path.len() > 0,
        lookup_from(t, cur, path) is Some,
    ensures
        tree_m(t).contains_key(lookup_from(t, cur, path)->0),
        tree_m(t)[lookup_from(t, cur, path)->0].parent is Some,
    decreases path.len(),
{
    let i = lookup_from(t, cur, path)->0;
    let c = find_child(t, tree_m(t)[cur].children, path[0])->0;
    lemma_find_child_props(t, tree_m(t)[cur].children, path[0]);
    let k = choose|k: int|
        0 <= k < tree_m(t)[cur].children.len() && tree_m(t)[cur].children[k] == c;
    assert(tree_m(t)[cur].children[k] == c);
    assert(tree_m(t)[c].parent == Some(cur));
    if path.len() > 1 {
        assert(path.drop_first().len() > 0);
        lemma_lookup_nonempty(t, c, path.drop_first());
    }
}

/// Copies a path.
pub fn copy_path(p: &Vec<Vec<u8>>) -> (r: Vec<Vec<u8>>)
    ensures
        r.deep_view() == p.deep_view(),
{
    let mut r: Vec<Vec<u8>> = Vec::new();
    let n = p.len();
    let mut i: usize = 0;
    while i < n
        invariant
            i <= n,
            n == p@.len(),
            r.deep_view() == p.deep_view().subrange(0, i as int),
        decreases n - i,
    {
        let ghost pre = r.deep_view();
        r.push(copy_bytes(&p[i]));
        proof {
            assert(r.deep_view() =~~= pre.push(p.deep_view()[i as int]));
            assert(pre.push(p.deep_view()[i as int]) =~= p.deep_view().subrange(0, i + 1));
        }
        i = i + 1;
    }
    proof {
        assert(p.deep_view().subrange(0, n as int) =~= p.deep_view());
    }
    r
}

/// Copies a byte string.
pub fn copy_bytes(a: &Vec<u8>) -> (r: Vec<u8>)
    ensures
        r@ == a@,
{
    let mut r: Vec<u8> = Vec::new();
    let n = a.len();
    let mut i: usize = 0;
    while i < n
        invariant
            i <= n,
            n == a@.len(),
            r@ == a@.subrange(0, i as int),
        decreases n - i,
    {
        r.push(a[i]);
        proof {
            assert(r@ =~= a@.subrange(0, i + 1));
        }
        i = i + 1;
    }
    proof {
        assert(a@.subrange(0, n as int) =~= a@);
    }
    r
}

/// Compares two byte strings.
pub fn bytes_eq(a: &Vec<u8>, b: &Vec<u8>) -> (r: bool)
    ensures
        r == (a@ == b@),
{
    if a.len() != b.len() {
        assert(a@ != b@) by {
            assert(a@.len() != b@.len());
        }
        return false;
    }
    let n = a.len();
    let mut i: usize = 0;
    while i < n
        invariant
            i <= n,
            n == a@.len() == b@.len(),
            forall|j: int| 0 <= j < i ==> a@[j] == b@[j],
        decreases n - i,
    {
        if a[i] != b[i] {
            return false;
        }
        i = i + 1;
    }
    proof {
        assert(a@ =~= b@);
    }
    true
}

impl Snapshot {
    /// An empty snapshot rooted at `root_path`.
    pub fn new(id: usize, root_path: Vec<Vec<u8>>) -> (r: Snapshot)
        ensures
            r@.id == id as int,
            r@.root_path == root_path.deep_view(),
            r@.root is None,
            r@.entries == Seq::<EntryView>::empty(),
            wf_tree(r@),
            r.wf(),
    {
        let r = Snapshot { id, root_path, root_inode: None, entries: InodeMap::new() };
        proof {
            assert(tree_m(r@) =~= Map::<u64, EntryView>::empty());
        }
        r
    }

    /// The container invariant carried by every snapshot the library
    /// hands out.
    pub open spec fn wf(&self) -> bool {
        self.entries.wf()
    }

    /// A copy of the snapshot, for readers; the scanner goes on mutating
    /// the live one.
    pub fn cloned(&self) -> (r: Snapshot)
        ensures
            r@ == self@,
            self.wf() ==> r.wf(),
    {
        let r = Snapshot {
            id: self.id,
            root_path: copy_path(&self.root_path),
            root_inode: self.root_inode,
            entries: self.entries.duplicate(),
        };
        proof {
            assert(r@ == self@);
        }
        r
    }

    /// The number of file entries, read from the root summary.
    pub fn file_count(&self) -> (r: usize)
        requires
            self.wf(),
        ensures
            r == count_files(self@.entries),
    {
        self.entries.file_count()
    }

    /// Looks an entry up by inode.
    pub fn get(&self, ino: u64) -> (r: Option<&Entry>)
        requires
            self.wf(),
        ensures
            match r {
                Some(e) => tree_m(self@).contains_key(ino) && e@ == tree_m(self@)[ino]
                    && e@.inode == ino,
                None => !tree_m(self@).contains_key(ino),
            },
    {
        self.entries.get(ino)
    }

    /// Whether an entry with this inode is present.
    pub fn has_inode(&self, ino: u64) -> (r: bool)
        requires
            self.wf(),
        ensures
            r == tree_m(self@).contains_key(ino),
    {
        self.get(ino).is_some()
    }

    /// The root entry, if the tree is non-empty.
    pub fn root_entry(&self) -> (r: Option<&Entry>)
        requires
            self.wf(),
        ensures
            match r {
                Some(e) => self@.root is Some && tree_m(self@).contains_key(self@.root->0)
                    && e@ == tree_m(self@)[self@.root->0],
                None => self@.root is None || !tree_m(self@).contains_key(self@.root->0),
            },
    {
        match self.root_inode {
            None => None,
            Some(r) => self.get(r),
        }
    }

    /// Resolves a path relative to the root to an inode, walking the
    /// children lists and matching each component by name.
    pub fn inode_for_path(&self, path: &Vec<Vec<u8>>) -> (r: Option<u64>)
        requires
            self.wf(),
        ensures
            r == inode_at_path(self@, path.deep_view()),
    {
        let ghost t = self@;
        let ghost p0 = path.deep_view();
        let mut cur: u64 = match self.root_inode {
            None => {
                return None;
            },
            Some(r) => r,
        };
        let n = path.len();
        let mut ci: usize = 0;
        proof {
            assert(p0.skip(0) =~= p0);
        }
        while ci < n
            invariant
                ci <= n,
                n == p0.len(),
                p0 == path.deep_view(),
                self.wf(),
                t == self@,
                inode_at_path(t, p0) == lookup_from(t, cur, p0.skip(ci as int)),
            decreases n - ci,
        {
            proof {
                assert(p0.skip(ci as int).len() > 0);
                assert(p0.skip(ci as int)[0] == p0[ci as int]);
                assert(p0.skip(ci as int).drop_first() =~= p0.skip(ci as int + 1));
            }
            let e = match self.entries.get(cur) {
                None => {
                    return None;
                },
                Some(e) => e,
            };
            match e {
                Entry::File { .. } => {
                    assert(!tree_m(t)[cur].is_dir);
                    return None;
                },
                Entry::Dir { children, .. } => {
                    let ghost cs = children@;
                    let m = children.len();
                    let mut k: usize = 0;
                    let mut found: Option<u64> = None;
                    proof {
                        assert(cs.skip(0) =~= cs);
                    }
                    while k < m
                        invariant
                            k <= m,
                            m == cs.len(),
                            cs == tree_m(t)[cur].children,
                            tree_m(t).contains_key(cur),
                            self.wf(),
                            t == self@,
                            p0 == path.deep_view(),
                            ci < n,
                            n == p0.len(),
                            children@ == cs,
                            found is None ==> find_child(t, cs, p0[ci as int]) == find_child(
                                t,
                                cs.skip(k as int),
                                p0[ci as int],
                            ),
                            found is Some ==> find_child(t, cs, p0[ci as int]) == found,
                        decreases m - k,
                    {
                        if found.is_none() {
                            let ghost name = p0[ci as int];
                            proof {
                                assert(cs.skip(k as int).len() == m - k);
                                assert(cs.skip(k as int)[0] == cs[k as int]);
                                assert(cs.skip(k as int).drop_first() =~= cs.skip(k as int + 1));
                                assert(path.deep_view()[ci as int] == path@[ci as int]@);
                            }
                            let child = children[k];
                            match self.entries.get(child) {
                                Some(ce) => {
                                    if bytes_eq(ce.name(), &path[ci]) {
                                        proof {
                                            assert(tree_m(t).contains_key(cs[k as int]));
                                            assert(tree_m(t)[cs[k as int]].name == name);
                                            assert(find_child(t, cs.skip(k as int), name)
                                                == Some(cs[k as int]));
                                        }
                                        found = Some(child);
                                    } else {
                                        proof {
                                            assert(tree_m(t)[cs[k as int]].name != name);
                                            assert(find_child(t, cs.skip(k as int), name)
                                                == find_child(t, cs.skip(k as int + 1), name));
                                        }
                                    }
                                },
                                None => {
                                    proof {
                                        assert(!tree_m(t).contains_key(cs[k as int]));
                                        assert(find_child(t, cs.skip(k as int), name)
                                            == find_child(t, cs.skip(k as int + 1), name));
                                    }
                                },
                            }
                        }
                        k = k + 1;
                    }
                    proof {
                        if found is None {
                            assert(cs.skip(m as int) =~= Seq::<u64>::empty());
                        }
                    }
                    match found {
                        None => {
                            return None;
                        },
                        Some(c) => {
                            cur = c;
                        },
                    }
                },
            }
            ci = ci + 1;
        }
        proof {
            assert(p0.skip(n as int) =~= Seq::<Seq<u8>>::empty());
        }
        Some(cur)
    }

    /// Resolves a path relative to the root to its entry.
    pub fn entry_for_path(&self, path: &Vec<Vec<u8>>) -> (r: Option<&Entry>)
        requires
            self.wf(),
        ensures
            match r {
                Some(e) => inode_at_path(self@, path.deep_view()) == Some(e@.inode)
                    && tree_m(self@).contains_key(e@.inode) && e@ == tree_m(self@)[e@.inode],
                None => inode_at_path(self@, path.deep_view()) is None || !tree_m(
                    self@,
                ).contains_key(inode_at_path(self@, path.deep_view())->0),
            },
    {
        match self.inode_for_path(path) {
            None => None,
            Some(ino) => self.get(ino),
        }
    }

    /// Reconstructs the path of an inode by walking its parent links and
    /// reversing the collected names. With `include_root` the root's own
    /// name is the first component; without it the path is relative to
    /// the root.
    pub fn path_for_inode(&self, ino: u64, include_root: bool) -> (r: Result<Vec<Vec<u8>>, Error>)
        requires
            self.wf(),
            wf_tree(self@),
        ensures
            match r {
                Ok(p) => tree_m(self@).contains_key(ino) && p.deep_view() == (if include_root {
                    full_path(self@, ino)
                } else {
                    rel_path(self@, ino)
                }),
                Err(e) => !tree_m(self@).contains_key(ino) && e == Error::NotFound(ino),
            },
    {
        let ghost t = self@;
        if self.entries.get(ino).is_none() {
            return Err(Error::NotFound(ino));
        }
        let mut rev: Vec<Vec<u8>> = Vec::new();
        let mut cur: u64 = ino;
        let ghost mut fuel = fuel_of(t);
        proof {
            assert(reaches_root(t, cur, fuel_of(t)));
            assert(full_path(t, ino) =~= full_path(t, cur) + rev.deep_view().reverse());
        }
        loop
            invariant_except_break
                self.wf(),
                t == self@,
                wf_tree(t),
                tree_m(t).contains_key(ino),
                tree_m(t).contains_key(cur),
                reaches_root(t, cur, fuel),
                full_path(t, ino) == full_path(t, cur) + rev.deep_view().reverse(),
            ensures
                rev.deep_view().reverse() == full_path(t, ino),
                rev.deep_view().len() == full_path(t, ino).len(),
            decreases fuel,
        {
            let e = match self.entries.get(cur) {
                Some(e) => e,
                None => {
                    proof {
                        assert(false);
                    }
                    return Err(Error::NotFound(ino));
                },
            };
            let name = copy_bytes(e.name());
            let parent = e.parent();
            let ghost old_rev = rev.deep_view();
            rev.push(name);
            proof {
                assert(rev.deep_view() =~~= old_rev.push(tree_m(t)[cur].name));
                assert(rev.deep_view().reverse() =~= seq![tree_m(t)[cur].name]
                    + old_rev.reverse());
            }
            match parent {
                None => {
                    proof {
                        assert(full_path(t, cur) == seq![tree_m(t)[cur].name]);
                        assert(full_path(t, ino) =~= rev.deep_view().reverse());
                    }
                    break;
                },
                Some(p) => {
                    proof {
                        lemma_parent_path(t, cur);
                        assert(full_path(t, cur) + old_rev.reverse() =~= full_path(t, p)
                            + rev.deep_view().reverse());
                        fuel = (fuel - 1) as nat;
                    }
                    cur = p;
                },
            }
        }
        // Reverse the collected names into path order.
        let mut out: Vec<Vec<u8>> = Vec::new();
        proof {
            assert(out.deep_view() + rev.deep_view().reverse() =~= full_path(t, ino));
        }
        while rev.len() > 0
            invariant
                out.deep_view() + rev.deep_view().reverse() == full_path(t, ino),
            decreases rev.len(),
        {
            let ghost pre_rev = rev.deep_view();
            let ghost pre_out = out.deep_view();
            let x = match rev.pop() {
                Some(x) => x,
                None => {
                    proof {
                        assert(false);
                    }
                    return Err(Error::NotFound(ino));
                },
            };
            out.push(x);
            proof {
                assert(rev.deep_view() =~= pre_rev.drop_last());
                assert(out.deep_view() =~= pre_out.push(pre_rev.last()));
                assert(pre_rev.reverse() =~= seq![pre_rev.last()] + pre_rev.drop_last().reverse());
                assert(pre_out + pre_rev.reverse() =~= out.deep_view()
                    + rev.deep_view().reverse());
            }
        }
        proof {
            assert(rev.deep_view().reverse() =~= Seq::<Seq<u8>>::empty());
            assert(out.deep_view() =~= full_path(t, ino));
        }
        if include_root {
            Ok(out)
        } else {
            proof {
                assert(full_path_of(t, ino, fuel_of(t)).len() >= 1);
            }
            let ghost pre_out = out.deep_view();
            let mut out = out;
            let _first = out.remove(0);
            proof {
                assert(out.deep_view() =~= pre_out.drop_first());
            }
            Ok(out)
        }
    }

    /// The absolute path of an inode: the root's path followed by the
    /// inode's path relative to the root.
    pub fn abs_path_for_inode(&self, ino: u64) -> (r: Result<Vec<Vec<u8>>, Error>)
        requires
            self.wf(),
            wf_tree(self@),
        ensures
            match r {
                Ok(p) => tree_m(self@).contains_key(ino) && p.deep_view() == self@.root_path
                    + rel_path(self@, ino),
                Err(e) => !tree_m(self@).contains_key(ino) && e == Error::NotFound(ino),
            },
    {
        let ghost t = self@;
        let rel = match self.path_for_inode(ino, false) {
            Ok(p) => p,
            Err(e) => {
                return Err(e);
            },
        };
        let mut out: Vec<Vec<u8>> = Vec::new();
        let rn = self.root_path.len();
        let mut i: usize = 0;
        while i < rn
            invariant
                i <= rn,
                rn == self.root_path@.len(),
                t == self@,
                out.deep_view() == self@.root_path.subrange(0, i as int),
            decreases rn - i,
        {
            let ghost pre = out.deep_view();
            out.push(copy_bytes(&self.root_path[i]));
            proof {
                assert(out.deep_view() =~~= pre.push(self@.root_path[i as int]));
                assert(pre.push(self@.root_path[i as int]) =~= self@.root_path.subrange(
                    0,
                    i + 1,
                ));
            }
            i = i + 1;
        }
        proof {
            assert(self@.root_path.subrange(0, rn as int) =~= self@.root_path);
        }
        let ghost mid_out = out.deep_view();
        let rl = rel.len();
        let mut j: usize = 0;
        while j < rl
            invariant
                j <= rl,
                rl == rel@.len(),
                rel.deep_view() == rel_path(t, ino),
                t == self@,
                out.deep_view() == mid_out + rel.deep_view().subrange(0, j as int),
            decreases rl - j,
        {
            let ghost pre = out.deep_view();
            out.push(copy_bytes(&rel[j]));
            proof {
                assert(out.deep_view() =~~= pre.push(rel.deep_view()[j as int]));
                assert(pre.push(rel.deep_view()[j as int]) =~= mid_out
                    + rel.deep_view().subrange(0, j + 1));
            }
            j = j + 1;
        }
        proof {
            assert(rel.deep_view().subrange(0, rl as int) =~= rel.deep_view());
            assert(out.deep_view() =~= self@.root_path + rel_path(t, ino));
        }
        Ok(out)
    }
}

/// A found child is a present entry carrying the looked-up name and
/// listed among the children searched.
pub proof fn lemma_find_child_props(t: SnapView, children: Seq<u64>, name: Seq<u8>)
    requires
        find_child(t, children, name) is Some,
    ensures
        tree_m(t).contains_key(find_child(t, children, name)->0),
        tree_m(t)[find_child(t, children, name)->0].name == name,
        exists|k: int| 0 <= k < children.len() && children[k] == find_child(t, children, name)->0,
    decreases children.len(),
{
    let c = find_child(t, children, name)->0;
    if tree_m(t).contains_key(children[0]) && tree_m(t)[children[0]].name == name {
        assert(children[0] == c);
    } else {
        lemma_find_child_props(t, children.drop_first(), name);
        let k = choose|k: int|
            0 <= k < children.drop_first().len() && children.drop_first()[k] == c;
        assert(children[k + 1] == c);
    }
}

/// A successful walk down the children lists lands on an entry whose
/// reconstructed path extends the starting entry's path by exactly the
/// components walked.
pub proof fn lemma_lookup_extends_path(t: SnapView, cur: u64, path: Seq<Seq<u8>>, i: u64)
    requires
        wf_tree(t),
        tree_m(t).contains_key(cur),
        lookup_from(t, cur, path) == Some(i),
    ensures
        tree_m(t).contains_key(i),
        full_path(t, i) == full_path(t, cur) + path,
    decreases path.len(),
{
    if path.len() == 0 {
        assert(i == cur);
        assert(full_path(t, cur) + path =~= full_path(t, cur));
    } else {
        let cs = tree_m(t)[cur].children;
        let c = find_child(t, cs, path[0])->0;
        lemma_find_child_props(t, cs, path[0]);
        let k = choose|k: int| 0 <= k < cs.len() && cs[k] == c;
        assert(tree_m(t)[cur].children[k] == c);
        assert(tree_m(t)[c].parent == Some(cur));
        lemma_parent_path(t, c);
        lemma_lookup_extends_path(t, c, path.drop_first(), i);
        assert(full_path(t, cur) + path =~= (full_path(t, cur).push(path[0]))
            + path.drop_first());
    }
}

/// The root summary counts exactly the file entries: a snapshot's file
/// count is the cardinality of the set of inodes whose entry is a file.
pub proof fn lemma_file_count_counts_files(t: SnapView)
    requires
        sorted_by_ino(t.entries),
    ensures
        count_files(t.entries) == crate::inode_map::file_keys(tree_m(t)).len(),
{
    crate::inode_map::lemma_file_count_is_file_set(t.entries);
}

/// In a published snapshot, an entry without a parent is the root: no
/// orphan survives a reconciliation batch.
pub proof fn lemma_parentless_is_root(t: SnapView, i: u64)
    requires
        wf_tree(t),
        tree_m(t).contains_key(i),
        tree_m(t)[i].parent is None,
    ensures
        t.root == Some(i),
{
}

/// In a published snapshot, every child listed by a directory resolves
/// to a present entry whose parent is that directory.
pub proof fn lemma_children_point_back(t: SnapView, d: u64, k: int)
    requires
        wf_tree(t),
        tree_m(t).contains_key(d),
        0 <= k < tree_m(t)[d].children.len(),
    ensures
        tree_m(t).contains_key(tree_m(t)[d].children[k]),
        tree_m(t)[tree_m(t)[d].children[k]].parent == Some(d),
{
}

/// A successful walk of a nonempty path factors through its parent path:
/// the entry found lies one step below the entry the parent path finds.
pub proof fn lemma_lookup_step(t: SnapView, cur: u64, path: Seq<Seq<u8>>)
    requires
        coherent(t),
        path.len() > 0,
        lookup_from(t, cur, path) is Some,
    ensures
        lookup_from(t, cur, path.drop_last()) is Some,
        tree_m(t)[lookup_from(t, cur, path)->0].parent == Some(
            lookup_from(t, cur, path.drop_last())->0,
        ),
    decreases path.len(),
{
    let m = tree_m(t);
    let c = find_child(t, m[cur].children, path[0])->0;
    lemma_find_child_props(t, m[cur].children, path[0]);
    let k = choose|k: int| 0 <= k < m[cur].children.len() && m[cur].children[k] == c;
    assert(m[cur].children[k] == c);
    assert(m[c].parent == Some(cur));
    if path.len() == 1 {
        assert(path.drop_last().len() == 0);
        assert(lookup_from(t, cur, path.drop_last()) == Some(cur));
        assert(lookup_from(t, c, path.drop_first()) == Some(c));
    } else {
        lemma_lookup_step(t, c, path.drop_first());
        assert(path.drop_last()[0] == path[0]);
        assert(path.drop_last().drop_first() =~= path.drop_first().drop_last());
    }
}

/// Resolving a relative path to an inode and reconstructing that inode's
/// relative path gives the original path back: in a well-formed snapshot
/// the downward walk by names and the upward walk by parent links agree.
pub proof fn lemma_path_round_trip(t: SnapView, path: Seq<Seq<u8>>)
    requires
        wf_tree(t),
        inode_at_path(t, path) is Some,
    ensures
        tree_m(t).contains_key(inode_at_path(t, path)->0),
        rel_path(t, inode_at_path(t, path)->0) == path,
{
    let r = t.root->0;
    let i = inode_at_path(t, path)->0;
    assert(tree_m(t).contains_key(r));
    lemma_lookup_extends_path(t, r, path, i);
    assert(full_path(t, r) == seq![tree_m(t)[r].name]);
    assert(rel_path(t, i) =~= path);
}

} // verus!
