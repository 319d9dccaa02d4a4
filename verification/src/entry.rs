//! The entry model: the in-memory record for one filesystem node, its
//! abstract view, and the summary folded over entries by the inode map.

use vstd::prelude::*;

verus! {

/// Errors surfaced by snapshot queries.
#[derive(Clone, Copy, Debug, PartialEq, Eq, Structural)]
pub enum Error {
    /// The inode is not present in the snapshot.
    NotFound(u64),
    /// A path is not under the worktree root.
    PathOutOfRoot,
}

/// Abstract value of an [`Entry`]: one record for both kinds, with
/// `children` empty and `pending` false for files.
pub struct EntryView {
    pub is_dir: bool,
    pub parent: Option<u64>,
    pub name: Seq<u8>,
    pub inode: u64,
    pub is_symlink: bool,
    pub is_ignored: bool,
    pub children: Seq<u64>,
    pub pending: bool,
    pub path_chars: Seq<u8>,
}

/// Positional data for one file, precomputed for the fuzzy path matcher:
/// the path relative to the root, joined with `/` and lowered to ASCII
/// lowercase.
pub struct PathEntry {
    pub ino: u64,
    pub path_chars: Vec<u8>,
    pub is_ignored: bool,
}

/// The literal name `.git`, ignored at any depth regardless of rule
/// files.
pub open spec fn git_name() -> Seq<u8> {
    seq![46u8, 103u8, 105u8, 116u8]
}

/// The bytes of the literal name `.git`.
pub fn git_bytes() -> (r: Vec<u8>)
    ensures
        r@ == git_name(),
{
    let mut r: Vec<u8> = Vec::new();
    r.push(46);
    r.push(103);
    r.push(105);
    r.push(116);
    proof {
        assert(r@ =~= git_name());
    }
    r
}

/// ASCII lowercasing of one byte.
pub open spec fn lower_byte(b: u8) -> u8 {
    if 65 <= b && b <= 90 {
        (b + 32) as u8
    } else {
        b
    }
}

/// ASCII lowercasing of a byte string.
pub open spec fn lower_seq(s: Seq<u8>) -> Seq<u8> {
    s.map_values(|b: u8| lower_byte(b))
}

/// Path components joined with `/`.
pub open spec fn join_path(p: Seq<Seq<u8>>) -> Seq<u8>
    decreases p.len(),
{
    if p.len() == 0 {
        Seq::empty()
    } else if p.len() == 1 {
        p[0]
    } else {
        join_path(p.drop_last()) + seq![47u8] + p.last()
    }
}

impl PathEntry {
    /// Precomputes the matcher data for a file at `rel_path` (the path
    /// relative to the root, the root's own name included): the joined
    /// path, lowered to ASCII lowercase.
    pub fn new(ino: u64, rel_path: &Vec<Vec<u8>>, is_ignored: bool) -> (r: PathEntry)
        ensures
            r.ino == ino,
            r.is_ignored == is_ignored,
            r.path_chars@ == lower_seq(join_path(rel_path.deep_view())),
    {
        let ghost p = rel_path.deep_view();
        let mut chars: Vec<u8> = Vec::new();
        let n = rel_path.len();
        let mut i: usize = 0;
        while i < n
            invariant
                i <= n,
                n == p.len(),
                p == rel_path.deep_view(),
                chars@ == lower_seq(join_path(p.subrange(0, i as int))),
            decreases n - i,
        {
            let ghost pre_all = chars@;
            if i > 0 {
                chars.push(47);
            }
            let comp = &rel_path[i];
            let m = comp.len();
            let ghost pre = chars@;
            let mut j: usize = 0;
            while j < m
                invariant
                    j <= m,
                    m == comp@.len(),
                    chars@ == pre + lower_seq(comp@.subrange(0, j as int)),
                decreases m - j,
            {
                let b = comp[j];
                let lb = if 65 <= b && b <= 90 {
                    b + 32
                } else {
                    b
                };
                chars.push(lb);
                proof {
                    assert(lower_seq(comp@.subrange(0, j + 1)) =~= lower_seq(
                        comp@.subrange(0, j as int),
                    ).push(lower_byte(comp@[j as int])));
                    assert(chars@ =~= pre + lower_seq(comp@.subrange(0, j + 1)));
                }
                j = j + 1;
            }
            proof {
                assert(comp@.subrange(0, m as int) =~= comp@);
                assert(p.subrange(0, i + 1).drop_last() =~= p.subrange(0, i as int));
                assert(p.subrange(0, i + 1).last() == p[i as int]);
                assert(p[i as int] == comp@);
                if i == 0 {
                    assert(join_path(p.subrange(0, 1)) == p.subrange(0, 1)[0]);
                    assert(chars@ =~= lower_seq(join_path(p.subrange(0, 1))));
                } else {
                    assert(join_path(p.subrange(0, i + 1)) == join_path(p.subrange(0, i as int))
                        + seq![47u8] + p[i as int]);
                    assert(lower_seq(join_path(p.subrange(0, i + 1))) =~= lower_seq(
                        join_path(p.subrange(0, i as int)),
                    ) + seq![47u8] + lower_seq(p[i as int]));
                    assert(chars@ =~= lower_seq(join_path(p.subrange(0, i + 1))));
                }
            }
            i = i + 1;
        }
        proof {
            assert(p.subrange(0, n as int) =~= p);
        }
        PathEntry { ino, path_chars: chars, is_ignored }
    }
}

/// The in-memory record for one filesystem node.
pub enum Entry {
    Dir {
        parent: Option<u64>,
        name: Vec<u8>,
        inode: u64,
        is_symlink: bool,
        is_ignored: bool,
        children: Vec<u64>,
        pending: bool,
    },
    File {
        parent: Option<u64>,
        name: Vec<u8>,
        inode: u64,
        is_symlink: bool,
        is_ignored: bool,
        path: PathEntry,
    },
}

impl View for Entry {
    type V = EntryView;

    open spec fn view(&self) -> EntryView {
        match self {
            Entry::Dir { parent, name, inode, is_symlink, is_ignored, children, pending } => {
                EntryView {
                    is_dir: true,
                    parent: *parent,
                    name: name@,
                    inode: *inode,
                    is_symlink: *is_symlink,
                    is_ignored: *is_ignored,
                    children: children@,
                    pending: *pending,
                    path_chars: Seq::empty(),
                }
            },
            Entry::File { parent, name, inode, is_symlink, is_ignored, path } => {
                EntryView {
                    is_dir: false,
                    parent: *parent,
                    name: name@,
                    inode: *inode,
                    is_symlink: *is_symlink,
                    is_ignored: *is_ignored,
                    children: Seq::empty(),
                    pending: false,
                    path_chars: path.path_chars@,
                }
            },
        }
    }
}

impl Entry {
    /// The inode key of this entry.
    pub fn ino(&self) -> (r: u64)
        ensures
            r == self@.inode,
    {
        match self {
            Entry::Dir { inode, .. } => *inode,
            Entry::File { inode, .. } => *inode,
        }
    }

    /// The inode of the containing directory, or `None` at the root.
    pub fn parent(&self) -> (r: Option<u64>)
        ensures
            r == self@.parent,
    {
        match self {
            Entry::Dir { parent, .. } => *parent,
            Entry::File { parent, .. } => *parent,
        }
    }

    /// The entry's file name.
    pub fn name(&self) -> (r: &Vec<u8>)
        ensures
            r@ == self@.name,
    {
        match self {
            Entry::Dir { name, .. } => name,
            Entry::File { name, .. } => name,
        }
    }

    /// Whether this entry is a directory.
    pub fn is_dir(&self) -> (r: bool)
        ensures
            r == self@.is_dir,
    {
        match self {
            Entry::Dir { .. } => true,
            Entry::File { .. } => false,
        }
    }

    /// Whether this entry is ignored by the ignore rules.
    pub fn is_ignored(&self) -> (r: bool)
        ensures
            r == self@.is_ignored,
    {
        match self {
            Entry::Dir { is_ignored, .. } => *is_ignored,
            Entry::File { is_ignored, .. } => *is_ignored,
        }
    }

    /// The summary contributed by this single entry.
    pub fn summary(&self) -> (r: EntrySummary)
        ensures
            r.max_ino == self@.inode,
            r.file_count == (if self@.is_dir { 0int } else { 1int }),
    {
        EntrySummary {
            max_ino: self.ino(),
            file_count: if self.is_dir() { 0 } else { 1 },
        }
    }
}

/// An entry view with its parent link replaced.
pub open spec fn set_parent(v: EntryView, p: Option<u64>) -> EntryView {
    EntryView {
        is_dir: v.is_dir,
        parent: p,
        name: v.name,
        inode: v.inode,
        is_symlink: v.is_symlink,
        is_ignored: v.is_ignored,
        children: v.children,
        pending: v.pending,
        path_chars: v.path_chars,
    }
}

/// An entry view with its children list replaced.
pub open spec fn set_children(v: EntryView, cs: Seq<u64>) -> EntryView {
    EntryView {
        is_dir: v.is_dir,
        parent: v.parent,
        name: v.name,
        inode: v.inode,
        is_symlink: v.is_symlink,
        is_ignored: v.is_ignored,
        children: cs,
        pending: v.pending,
        path_chars: v.path_chars,
    }
}

/// An entry view with its metadata bits refreshed.
pub open spec fn refresh_bits(v: EntryView, is_symlink: bool, is_ignored: bool) -> EntryView {
    EntryView {
        is_dir: v.is_dir,
        parent: v.parent,
        name: v.name,
        inode: v.inode,
        is_symlink,
        is_ignored,
        children: v.children,
        pending: v.pending,
        path_chars: v.path_chars,
    }
}

/// An entry view moved under a new parent with a new name: the kind, the
/// children and the pending bit are kept — the whole subtree of a moved
/// directory moves with it — while a file's matcher data is rebuilt for
/// the new path.
pub open spec fn set_moved(
    v: EntryView,
    parent: u64,
    name: Seq<u8>,
    is_symlink: bool,
    is_ignored: bool,
    path_chars: Seq<u8>,
) -> EntryView {
    EntryView {
        is_dir: v.is_dir,
        parent: Some(parent),
        name,
        inode: v.inode,
        is_symlink,
        is_ignored,
        children: v.children,
        pending: v.pending,
        path_chars: if v.is_dir {
            v.path_chars
        } else {
            path_chars
        },
    }
}

impl Entry {
    /// A copy of this entry.
    pub fn duplicate(&self) -> (r: Entry)
        ensures
            r@ == self@,
    {
        match self {
            Entry::Dir { parent, name, inode, is_symlink, is_ignored, children, pending } => {
                let mut cs: Vec<u64> = Vec::new();
                let n = children.len();
                let mut i: usize = 0;
                while i < n
                    invariant
                        i <= n,
                        n == children@.len(),
                        cs@ == children@.subrange(0, i as int),
                    decreases n - i,
                {
                    cs.push(children[i]);
                    proof {
                        assert(cs@ =~= children@.subrange(0, i + 1));
                    }
                    i = i + 1;
                }
                proof {
                    assert(children@.subrange(0, n as int) =~= children@);
                }
                Entry::Dir {
                    parent: *parent,
                    name: crate::snapshot::copy_bytes(name),
                    inode: *inode,
                    is_symlink: *is_symlink,
                    is_ignored: *is_ignored,
                    children: cs,
                    pending: *pending,
                }
            },
            Entry::File { parent, name, inode, is_symlink, is_ignored, path } => Entry::File {
                parent: *parent,
                name: crate::snapshot::copy_bytes(name),
                inode: *inode,
                is_symlink: *is_symlink,
                is_ignored: *is_ignored,
                path: PathEntry {
                    ino: path.ino,
                    path_chars: crate::snapshot::copy_bytes(&path.path_chars),
                    is_ignored: path.is_ignored,
                },
            },
        }
    }

    /// A copy of this entry with its parent link replaced.
    pub fn with_parent(&self, p: Option<u64>) -> (r: Entry)
        ensures
            r@ == set_parent(self@, p),
    {
        let mut r = self.duplicate();
        match &mut r {
            Entry::Dir { parent, .. } => {
                *parent = p;
            },
            Entry::File { parent, .. } => {
                *parent = p;
            },
        }
        r
    }

    /// A copy of this directory entry with its children list replaced.
    pub fn with_children(&self, cs: Vec<u64>) -> (r: Entry)
        requires
            self@.is_dir,
        ensures
            r@ == set_children(self@, cs@),
    {
        let mut r = self.duplicate();
        match &mut r {
            Entry::Dir { children, .. } => {
                *children = cs;
            },
            Entry::File { .. } => {
                proof {
                    assert(false);
                }
            },
        }
        r
    }

    /// A copy of this entry moved under a new parent with a new name.
    /// `pe_rel` is the moved entry's new path relative to the root, the
    /// root's own name included, from which a file's matcher data is
    /// rebuilt.
    pub fn with_moved(
        &self,
        parent: u64,
        name: Vec<u8>,
        is_symlink: bool,
        is_ignored: bool,
        pe_rel: &Vec<Vec<u8>>,
    ) -> (r: Entry)
        ensures
            r@ == set_moved(
                self@,
                parent,
                name@,
                is_symlink,
                is_ignored,
                lower_seq(join_path(pe_rel.deep_view())),
            ),
    {
        let mut r = self.duplicate();
        let ino = self.ino();
        match &mut r {
            Entry::Dir { parent: p, name: nm, is_symlink: s, is_ignored: g, .. } => {
                *p = Some(parent);
                *nm = name;
                *s = is_symlink;
                *g = is_ignored;
            },
            Entry::File { parent: p, name: nm, is_symlink: s, is_ignored: g, path, .. } => {
                *p = Some(parent);
                *nm = name;
                *s = is_symlink;
                *g = is_ignored;
                *path = PathEntry::new(ino, pe_rel, is_ignored);
            },
        }
        r
    }

    /// A copy of this entry with its metadata bits refreshed.
    pub fn with_bits(&self, is_symlink: bool, is_ignored: bool) -> (r: Entry)
        ensures
            r@ == refresh_bits(self@, is_symlink, is_ignored),
    {
        let mut r = self.duplicate();
        match &mut r {
            Entry::Dir { is_symlink: s, is_ignored: g, .. } => {
                *s = is_symlink;
                *g = is_ignored;
            },
            Entry::File { is_symlink: s, is_ignored: g, path, .. } => {
                *s = is_symlink;
                *g = is_ignored;
                path.is_ignored = is_ignored;
            },
        }
        r
    }
}

/// The associative fold over entries carried by the inode map: the greatest
/// inode seen in order, and the number of file entries.
pub struct EntrySummary {
    pub max_ino: u64,
    pub file_count: usize,
}

impl EntrySummary {
    /// The summary of no entries.
    pub fn empty() -> (r: EntrySummary)
        ensures
            r.max_ino == 0,
            r.file_count == 0,
    {
        EntrySummary { max_ino: 0, file_count: 0 }
    }

    /// Folds a right-hand summary into this one: the maximum inode takes
    /// the right-hand value (entries are folded in inode order), and the
    /// file counts add.
    pub fn add_summary(&mut self, rhs: &EntrySummary)
        requires
            old(self).file_count + rhs.file_count <= usize::MAX,
        ensures
            final(self).max_ino == rhs.max_ino,
            final(self).file_count == old(self).file_count + rhs.file_count,
    {
        self.max_ino = rhs.max_ino;
        self.file_count = self.file_count + rhs.file_count;
    }
}

} // verus!
