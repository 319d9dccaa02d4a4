//! The ordered inode map: the container of entries keyed by inode, kept in
//! strictly increasing inode order, with the entry summary (maximum inode,
//! file count) maintained alongside.
//!
//! The abstract value of the container is its sequence of entry views in
//! key order; `as_map` projects that sequence onto a finite map from inode
//! to entry, and every operation is specified against that map.

use vstd::prelude::*;
use vstd::pervasive::VecAdditionalExecFns;
use crate::entry::{Entry, EntryView, EntrySummary};

verus! {

/// One element of an atomic batch handed to [`InodeMap::edit`].
pub enum Edit {
    Insert(Entry),
    Remove(u64),
}

/// Abstract value of an [`Edit`].
pub enum EditView {
    Ins(EntryView),
    Rem(u64),
}

impl View for Edit {
    type V = EditView;

    open spec fn view(&self) -> EditView {
        match self {
            Edit::Insert(e) => EditView::Ins(e@),
            Edit::Remove(ino) => EditView::Rem(*ino),
        }
    }
}

/// The views of a sequence of entries, in the same order.
pub open spec fn views_of(s: Seq<Entry>) -> Seq<EntryView> {
    s.map_values(|e: Entry| e@)
}

/// Strictly increasing inode order: each key occurs at most once.
pub open spec fn sorted_by_ino(s: Seq<EntryView>) -> bool {
    forall|i: int, j: int| 0 <= i < j < s.len() ==> s[i].inode < s[j].inode
}

/// Whether some element of `s` carries the key `k`.
pub open spec fn key_in_seq(s: Seq<EntryView>, k: u64) -> bool {
    exists|i: int| 0 <= i < s.len() && #[trigger] s[i].inode == k
}

/// The finite map from inode to entry view described by a key-ordered
/// sequence of entries.
pub open spec fn seq_as_map(s: Seq<EntryView>) -> Map<u64, EntryView>
    decreases s.len(),
{
    if s.len() == 0 {
        Map::empty()
    } else {
        seq_as_map(s.drop_last()).insert(s.last().inode, s.last())
    }
}

/// The number of file (non-directory) entries in `s`.
pub open spec fn count_files(s: Seq<EntryView>) -> int
    decreases s.len(),
{
    if s.len() == 0 {
        0
    } else {
        count_files(s.drop_last()) + if s.last().is_dir {
            0int
        } else {
            1int
        }
    }
}

/// A key is in the map of a sequence exactly when some element carries it.
pub proof fn lemma_map_covers(s: Seq<EntryView>)
    ensures
        forall|k: u64| #[trigger] seq_as_map(s).contains_key(k) <==> key_in_seq(s, k),
    decreases s.len(),
{
    if s.len() > 0 {
        let dl = s.drop_last();
        lemma_map_covers(dl);
        assert(seq_as_map(s) == seq_as_map(dl).insert(s.last().inode, s.last()));
        assert forall|k: u64| #[trigger] seq_as_map(s).contains_key(k) implies key_in_seq(s, k) by {
            if k == s.last().inode {
                assert(s[s.len() - 1].inode == k);
            } else {
                assert(seq_as_map(dl).contains_key(k));
                assert(key_in_seq(dl, k));
                let i = choose|i: int| 0 <= i < dl.len() && #[trigger] dl[i].inode == k;
                assert(dl[i] == s[i]);
                assert(s[i].inode == k);
            }
        }
        assert forall|k: u64| key_in_seq(s, k) implies #[trigger] seq_as_map(s).contains_key(k) by {
            let i = choose|i: int| 0 <= i < s.len() && #[trigger] s[i].inode == k;
            if i < s.len() - 1 {
                assert(dl[i] == s[i]);
                assert(dl[i].inode == k);
                assert(key_in_seq(dl, k));
                assert(seq_as_map(dl).contains_key(k));
            } else {
                assert(k == s.last().inode);
            }
        }
    }
}

/// The map of a key-ordered sequence has exactly one key per element.
pub proof fn lemma_map_dom_len(s: Seq<EntryView>)
    requires
        sorted_by_ino(s),
    ensures
        seq_as_map(s).dom().finite(),
        seq_as_map(s).dom().len() == s.len(),
    decreases s.len(),
{
    if s.len() > 0 {
        let dl = s.drop_last();
        lemma_sorted_drop_last(s);
        lemma_map_dom_len(dl);
        lemma_map_covers(dl);
        assert(!seq_as_map(dl).contains_key(s.last().inode)) by {
            if key_in_seq(dl, s.last().inode) {
                let i = choose|i: int|
                    0 <= i < dl.len() && #[trigger] dl[i].inode == s.last().inode;
                assert(s[i].inode < s[s.len() - 1].inode);
            }
        }
        assert(seq_as_map(s).dom() =~= seq_as_map(dl).dom().insert(s.last().inode));
    } else {
        assert(seq_as_map(s).dom() =~= Set::<u64>::empty());
    }
}

/// Dropping the last element keeps the sequence key-ordered.
pub proof fn lemma_sorted_drop_last(s: Seq<EntryView>)
    requires
        sorted_by_ino(s),
        s.len() > 0,
    ensures
        sorted_by_ino(s.drop_last()),
{
    let dl = s.drop_last();
    assert forall|i: int, j: int| 0 <= i < j < dl.len() implies dl[i].inode < dl[j].inode by {
        assert(dl[i] == s[i]);
        assert(dl[j] == s[j]);
    }
}

/// In a key-ordered sequence, the map sends each element's key to that
/// element.
pub proof fn lemma_map_index(s: Seq<EntryView>)
    requires
        sorted_by_ino(s),
    ensures
        forall|i: int| 0 <= i < s.len() ==> seq_as_map(s)[#[trigger] s[i].inode] == s[i],
    decreases s.len(),
{
    if s.len() > 0 {
        lemma_map_index(s.drop_last());
        assert forall|i: int| 0 <= i < s.len() implies seq_as_map(s)[#[trigger] s[i].inode] == s[i] by {
            if i < s.len() - 1 {
                assert(s.drop_last()[i] == s[i]);
                assert(s[i].inode < s.last().inode);
            }
        }
    }
}

/// Dropping the greatest-keyed element of a key-ordered sequence removes
/// exactly that key from its map.
pub proof fn lemma_map_drop_last(s: Seq<EntryView>)
    requires
        sorted_by_ino(s),
        s.len() > 0,
    ensures
        seq_as_map(s.drop_last()) == seq_as_map(s).remove(s.last().inode),
{
    lemma_map_covers(s.drop_last());
    assert(!seq_as_map(s.drop_last()).contains_key(s.last().inode)) by {
        if key_in_seq(s.drop_last(), s.last().inode) {
            let i = choose|i: int|
                0 <= i < s.drop_last().len() && #[trigger] s.drop_last()[i].inode == s.last().inode;
            assert(s[i].inode < s.last().inode);
        }
    }
    assert(seq_as_map(s.drop_last()) =~= seq_as_map(s).remove(s.last().inode));
}

/// Two key-ordered sequences that describe the same map are the same
/// sequence: the order makes the representation canonical.
pub proof fn lemma_sorted_canonical(s1: Seq<EntryView>, s2: Seq<EntryView>)
    requires
        sorted_by_ino(s1),
        sorted_by_ino(s2),
        seq_as_map(s1) == seq_as_map(s2),
    ensures
        s1 == s2,
    decreases s1.len(),
{
    lemma_map_covers(s1);
    lemma_map_covers(s2);
    if s1.len() == 0 {
        assert(seq_as_map(s1) =~= Map::<u64, EntryView>::empty());
        if s2.len() > 0 {
            assert(s2[s2.len() - 1].inode == s2.last().inode);
            assert(seq_as_map(s2).contains_key(s2.last().inode));
            assert(false);
        }
        assert(s1 =~= s2);
    } else {
        assert(s1[s1.len() - 1].inode == s1.last().inode);
        assert(seq_as_map(s1).contains_key(s1.last().inode));
        assert(s2.len() > 0);
        // The last element of each sequence carries the greatest key of the
        // shared map, so the two last elements are equal.
        let k1 = s1.last().inode;
        let k2 = s2.last().inode;
        assert(s2[s2.len() - 1].inode == k2);
        assert(seq_as_map(s2).contains_key(k1));
        let j = choose|j: int| 0 <= j < s2.len() && #[trigger] s2[j].inode == k1;
        assert(k1 <= k2) by {
            if j < s2.len() - 1 {
                assert(s2[j].inode < s2[s2.len() - 1].inode);
            }
        }
        assert(seq_as_map(s1).contains_key(k2));
        let j1 = choose|j1: int| 0 <= j1 < s1.len() && #[trigger] s1[j1].inode == k2;
        assert(k2 <= k1) by {
            if j1 < s1.len() - 1 {
                assert(s1[j1].inode < s1[s1.len() - 1].inode);
            }
        }
        lemma_map_index(s1);
        lemma_map_index(s2);
        assert(s1.last() == seq_as_map(s1)[k1]);
        assert(s2.last() == seq_as_map(s2)[k1]);
        assert(s1.last() == s2.last());
        lemma_map_drop_last(s1);
        lemma_map_drop_last(s2);
        lemma_sorted_drop_last(s1);
        lemma_sorted_drop_last(s2);
        assert(seq_as_map(s1.drop_last()) == seq_as_map(s2.drop_last()));
        lemma_sorted_canonical(s1.drop_last(), s2.drop_last());
        assert(s1.len() == s2.len());
        assert forall|i: int| 0 <= i < s1.len() implies s1[i] == s2[i] by {
            if i < s1.len() - 1 {
                assert(s1.drop_last()[i] == s1[i]);
                assert(s2.drop_last()[i] == s2[i]);
            }
        }
        assert(s1 =~= s2);
    }
}

/// A sequence holding a file entry counts at least one file.
pub proof fn lemma_count_files_pos(s: Seq<EntryView>, i: int)
    requires
        0 <= i < s.len(),
        !s[i].is_dir,
    ensures
        count_files(s) >= 1,
    decreases s.len(),
{
    if i == s.len() - 1 {
        assert(count_files(s.drop_last()) >= 0) by {
            lemma_count_files_bounds(s.drop_last());
        }
    } else {
        lemma_count_files_pos(s.drop_last(), i);
    }
}

/// The file count lies between zero and the length.
pub proof fn lemma_count_files_bounds(s: Seq<EntryView>)
    ensures
        0 <= count_files(s) <= s.len(),
    decreases s.len(),
{
    if s.len() > 0 {
        lemma_count_files_bounds(s.drop_last());
    }
}

/// The keys of the file entries of a map.
pub open spec fn file_keys(m: Map<u64, EntryView>) -> Set<u64> {
    m.dom().filter(|k: u64| !m[k].is_dir)
}

/// The file count is the number of file entries: the summary dimension
/// equals the cardinality of the set of inodes whose entry is a file.
pub proof fn lemma_file_count_is_file_set(s: Seq<EntryView>)
    requires
        sorted_by_ino(s),
    ensures
        file_keys(seq_as_map(s)).finite(),
        count_files(s) == file_keys(seq_as_map(s)).len(),
    decreases s.len(),
{
    lemma_map_dom_len(s);
    vstd::set_lib::lemma_len_subset(file_keys(seq_as_map(s)), seq_as_map(s).dom());
    if s.len() == 0 {
        assert(file_keys(seq_as_map(s)) =~= Set::<u64>::empty());
    } else {
        let dl = s.drop_last();
        let k = s.last().inode;
        lemma_sorted_drop_last(s);
        lemma_file_count_is_file_set(dl);
        lemma_map_covers(dl);
        assert(!seq_as_map(dl).contains_key(k)) by {
            if key_in_seq(dl, k) {
                let i = choose|i: int| 0 <= i < dl.len() && #[trigger] dl[i].inode == k;
                assert(s[i].inode < s[s.len() - 1].inode);
            }
        }
        if s.last().is_dir {
            assert(file_keys(seq_as_map(s)) =~= file_keys(seq_as_map(dl)));
        } else {
            assert(file_keys(seq_as_map(s)) =~= file_keys(seq_as_map(dl)).insert(k));
            assert(!file_keys(seq_as_map(dl)).contains(k));
        }
    }
}

/// The ordered container of entries keyed by inode.
pub struct InodeMap {
    entries: Vec<Entry>,
    files: usize,
}

impl View for InodeMap {
    type V = Seq<EntryView>;

    closed spec fn view(&self) -> Seq<EntryView> {
        views_of(self.entries@)
    }
}

/// Applies one edit to a map of entry views.
pub open spec fn apply_edit(m: Map<u64, EntryView>, e: EditView) -> Map<u64, EntryView> {
    match e {
        EditView::Ins(v) => m.insert(v.inode, v),
        EditView::Rem(k) => m.remove(k),
    }
}

/// Applies a batch of edits in order, front first.
pub open spec fn apply_edits(m: Map<u64, EntryView>, s: Seq<EditView>) -> Map<u64, EntryView>
    decreases s.len(),
{
    if s.len() == 0 {
        m
    } else {
        apply_edits(apply_edit(m, s[0]), s.drop_first())
    }
}

/// The key an edit addresses.
pub open spec fn edit_key(e: EditView) -> u64 {
    match e {
        EditView::Ins(v) => v.inode,
        EditView::Rem(k) => k,
    }
}

/// The previously present entries that a batch of edits displaces, in
/// batch order.
pub open spec fn edit_priors(m: Map<u64, EntryView>, s: Seq<EditView>) -> Seq<EntryView>
    decreases s.len(),
{
    if s.len() == 0 {
        Seq::empty()
    } else {
        let head = if m.contains_key(edit_key(s[0])) {
            seq![m[edit_key(s[0])]]
        } else {
            Seq::empty()
        };
        head + edit_priors(apply_edit(m, s[0]), s.drop_first())
    }
}

impl InodeMap {
    /// Structural invariant: entries are in strictly increasing inode
    /// order and the cached file count matches the contents.
    pub closed spec fn wf(&self) -> bool {
        &&& sorted_by_ino(self@)
        &&& self.files == count_files(self@)
    }

    /// The map from inode to entry view that this container holds.
    pub open spec fn as_map(&self) -> Map<u64, EntryView> {
        seq_as_map(self@)
    }

    /// A well-formed container's sequence is in strictly increasing inode
    /// order.
    pub proof fn lemma_wf_sorted(&self)
        requires
            self.wf(),
        ensures
            sorted_by_ino(self@),
    {
    }

    /// The empty container.
    pub fn new() -> (r: InodeMap)
        ensures
            r.wf(),
            r@ == Seq::<EntryView>::empty(),
            r.as_map() == Map::<u64, EntryView>::empty(),
    {
        let r = InodeMap { entries: Vec::new(), files: 0 };
        proof {
            assert(r@ =~= Seq::<EntryView>::empty());
        }
        r
    }

    /// The number of entries held.
    pub fn len(&self) -> (r: usize)
        ensures
            r == self@.len(),
    {
        self.entries.len()
    }

    /// The entry at position `i` in inode order.
    pub fn entry_at(&self, i: usize) -> (r: &Entry)
        requires
            i < self@.len(),
        ensures
            r@ == self@[i as int],
    {
        &self.entries[i]
    }

    /// Looks an entry up by inode, by binary search over the ordered
    /// entries.
    pub fn get(&self, ino: u64) -> (r: Option<&Entry>)
        requires
            self.wf(),
        ensures
            match r {
                Some(e) => self.as_map().contains_key(ino) && e@ == self.as_map()[ino]
                    && e@.inode == ino,
                None => !self.as_map().contains_key(ino),
            },
    {
        proof {
            lemma_map_covers(self@);
            lemma_map_index(self@);
        }
        let mut lo: usize = 0;
        let mut hi: usize = self.entries.len();
        while lo < hi
            invariant
                lo <= hi <= self@.len(),
                self.wf(),
                forall|j: int| 0 <= j < lo ==> self@[j].inode < ino,
                forall|j: int| hi <= j < self@.len() ==> self@[j].inode > ino,
            decreases hi - lo,
        {
            let mid = lo + (hi - lo) / 2;
            let e = &self.entries[mid];
            let e_ino = e.ino();
            if e_ino < ino {
                lo = mid + 1;
            } else if e_ino > ino {
                hi = mid;
            } else {
                proof {
                    lemma_map_covers(self@);
                    lemma_map_index(self@);
                    assert(self@[mid as int].inode == ino);
                }
                return Some(e);
            }
        }
        proof {
            if key_in_seq(self@, ino) {
                let i = choose|i: int| 0 <= i < self@.len() && #[trigger] self@[i].inode == ino;
                assert(false);
            }
        }
        None
    }

    /// Inserts an entry keyed by its inode, replacing and returning any
    /// entry previously present under that key.
    pub fn insert(&mut self, e: Entry) -> (prior: Option<Entry>)
        requires
            old(self).wf(),
            old(self)@.len() < usize::MAX,
        ensures
            final(self).wf(),
            final(self).as_map() == old(self).as_map().insert(e@.inode, e@),
            match prior {
                Some(p) => old(self).as_map().contains_key(e@.inode)
                    && p@ == old(self).as_map()[e@.inode]
                    && final(self)@.len() == old(self)@.len(),
                None => !old(self).as_map().contains_key(e@.inode)
                    && final(self)@.len() == old(self)@.len() + 1,
            },
            forall|j: int| 0 <= j < final(self)@.len() ==> final(self)@[j].inode == e@.inode
                || key_in_seq(old(self)@, final(self)@[j].inode),
    {
        let ghost old_views = self@;
        proof {
            lemma_map_covers(old_views);
            lemma_map_index(old_views);
            lemma_count_files_bounds(old_views);
        }
        let mut v: Vec<Entry> = Vec::new();
        core::mem::swap(&mut v, &mut self.entries);
        let e_file: usize = if e.is_dir() { 0 } else { 1 };
        let (v2, prior) = insert_rec(v, e);
        self.entries = v2;
        match &prior {
            Some(p) => {
                let p_file: usize = if p.is_dir() { 0 } else { 1 };
                proof {
                    if !p@.is_dir {
                        let i = choose|i: int|
                            0 <= i < old_views.len() && #[trigger] old_views[i].inode == e@.inode;
                        assert(old_views[i] == p@);
                        lemma_count_files_pos(old_views, i);
                    }
                    lemma_count_files_bounds(self@);
                }
                self.files = self.files - p_file + e_file;
            },
            None => {
                proof {
                    lemma_count_files_bounds(old_views);
                }
                self.files = self.files + e_file;
            },
        }
        prior
    }

    /// Removes the entry keyed by `ino`, returning it if it was present.
    pub fn remove(&mut self, ino: u64) -> (prior: Option<Entry>)
        requires
            old(self).wf(),
        ensures
            final(self).wf(),
            final(self).as_map() == old(self).as_map().remove(ino),
            match prior {
                Some(p) => old(self).as_map().contains_key(ino)
                    && p@ == old(self).as_map()[ino]
                    && final(self)@.len() + 1 == old(self)@.len(),
                None => !old(self).as_map().contains_key(ino)
                    && final(self)@ == old(self)@,
            },
            forall|j: int| 0 <= j < final(self)@.len() ==> key_in_seq(old(self)@, final(self)@[j].inode),
    {
        let ghost old_views = self@;
        proof {
            lemma_map_covers(old_views);
            lemma_map_index(old_views);
        }
        let mut v: Vec<Entry> = Vec::new();
        core::mem::swap(&mut v, &mut self.entries);
        let (v2, prior) = remove_rec(v, ino);
        self.entries = v2;
        match &prior {
            Some(p) => {
                if !p.is_dir() {
                    proof {
                        if !p@.is_dir {
                            let i = choose|i: int|
                                0 <= i < old_views.len() && #[trigger] old_views[i].inode == ino;
                            assert(old_views[i] == p@);
                            lemma_count_files_pos(old_views, i);
                        }
                    }
                    self.files = self.files - 1;
                }
            },
            None => {},
        }
        prior
    }

    /// Applies a batch of inserts and removes in order, returning the
    /// entries the batch displaced.
    pub fn edit(&mut self, edits: Vec<Edit>) -> (priors: Vec<Entry>)
        requires
            old(self).wf(),
            old(self)@.len() + edits@.len() < usize::MAX,
        ensures
            final(self).wf(),
            final(self).as_map() == apply_edits(old(self).as_map(), edits@.map_values(|e: Edit| e@)),
            views_of(priors@) == edit_priors(old(self).as_map(), edits@.map_values(|e: Edit| e@)),
    {
        let ghost evs = edits@.map_values(|e: Edit| e@);
        let mut priors: Vec<Entry> = Vec::new();
        let n = edits.len();
        let mut edits = edits;
        let mut k: usize = 0;
        proof {
            assert(evs.skip(0) =~= evs);
            assert(views_of(priors@) =~= Seq::<EntryView>::empty());
        }
        while k < n
            invariant
                k <= n,
                n == edits@.len(),
                n == evs.len(),
                forall|j: int| k <= j < n ==> (#[trigger] edits@[j])@ == evs[j],
                self.wf(),
                self@.len() <= old(self)@.len() + k,
                old(self)@.len() + n < usize::MAX,
                apply_edits(self.as_map(), evs.skip(k as int)) == apply_edits(
                    old(self).as_map(),
                    evs,
                ),
                edit_priors(old(self).as_map(), evs) == views_of(priors@) + edit_priors(
                    self.as_map(),
                    evs.skip(k as int),
                ),
            decreases n - k,
        {
            let ghost pre = self.as_map();
            let ghost pre_views = views_of(priors@);
            // Take the k-th edit out by value: swap a placeholder in.
            let e = take_edit(&mut edits, k);
            proof {
                assert(e@ == evs[k as int]);
                assert(evs.skip(k as int)[0] == evs[k as int]);
                assert(evs.skip(k as int).drop_first() =~= evs.skip(k as int + 1));
            }
            match e {
                Edit::Insert(entry) => {
                    let ghost key = entry@.inode;
                    let p = self.insert(entry);
                    match p {
                        Some(pe) => {
                            proof {
                                assert(edit_priors(pre, evs.skip(k as int)) == seq![pre[key]]
                                    + edit_priors(self.as_map(), evs.skip(k as int + 1)));
                            }
                            priors.push(pe);
                            proof {
                                assert(views_of(priors@) =~= pre_views.push(pre[key]));
                                assert(pre_views + (seq![pre[key]] + edit_priors(
                                    self.as_map(),
                                    evs.skip(k as int + 1),
                                )) =~= views_of(priors@) + edit_priors(
                                    self.as_map(),
                                    evs.skip(k as int + 1),
                                ));
                            }
                        },
                        None => {
                            proof {
                                assert(pre_views + (Seq::<EntryView>::empty() + edit_priors(
                                    self.as_map(),
                                    evs.skip(k as int + 1),
                                )) =~= pre_views + edit_priors(
                                    self.as_map(),
                                    evs.skip(k as int + 1),
                                ));
                            }
                        },
                    }
                },
                Edit::Remove(ino) => {
                    let p = self.remove(ino);
                    match p {
                        Some(pe) => {
                            priors.push(pe);
                            proof {
                                assert(views_of(priors@) =~= pre_views.push(pre[ino]));
                                assert(pre_views + (seq![pre[ino]] + edit_priors(
                                    self.as_map(),
                                    evs.skip(k as int + 1),
                                )) =~= views_of(priors@) + edit_priors(
                                    self.as_map(),
                                    evs.skip(k as int + 1),
                                ));
                            }
                        },
                        None => {
                            proof {
                                assert(pre_views + (Seq::<EntryView>::empty() + edit_priors(
                                    self.as_map(),
                                    evs.skip(k as int + 1),
                                )) =~= pre_views + edit_priors(
                                    self.as_map(),
                                    evs.skip(k as int + 1),
                                ));
                            }
                        },
                    }
                },
            }
            k = k + 1;
        }
        proof {
            assert(evs.skip(n as int) =~= Seq::<EditView>::empty());
            assert(views_of(priors@) + Seq::<EntryView>::empty() =~= views_of(priors@));
        }
        priors
    }

    /// The summary over all entries: the greatest inode (zero when empty)
    /// and the number of file entries.
    pub fn summary(&self) -> (r: EntrySummary)
        requires
            self.wf(),
        ensures
            r.file_count == count_files(self@),
            self@.len() > 0 ==> r.max_ino == self@.last().inode,
            self@.len() == 0 ==> r.max_ino == 0,
    {
        let n = self.entries.len();
        let max_ino = if n > 0 {
            self.entries[n - 1].ino()
        } else {
            0
        };
        EntrySummary { max_ino, file_count: self.files }
    }

    /// A copy of the container: the live index stays with the scanner
    /// while readers query the copy.
    pub fn duplicate(&self) -> (r: InodeMap)
        ensures
            r@ == self@,
            self.wf() ==> r.wf(),
    {
        let n = self.entries.len();
        let mut v: Vec<Entry> = Vec::new();
        let mut i: usize = 0;
        while i < n
            invariant
                i <= n,
                n == self.entries@.len(),
                views_of(v@) == self@.subrange(0, i as int),
            decreases n - i,
        {
            let ghost pre = views_of(v@);
            v.push(self.entries[i].duplicate());
            proof {
                assert(views_of(v@) =~= pre.push(self@[i as int]));
                assert(pre.push(self@[i as int]) =~= self@.subrange(0, i + 1));
            }
            i = i + 1;
        }
        proof {
            assert(self@.subrange(0, n as int) =~= self@);
        }
        InodeMap { entries: v, files: self.files }
    }

    /// The number of file entries held.
    pub fn file_count(&self) -> (r: usize)
        requires
            self.wf(),
        ensures
            r == count_files(self@),
    {
        self.files
    }
}

/// Swaps the `k`-th edit out of the batch, leaving a removal of inode 0 in
/// its place; used only to consume the batch in order.
fn take_edit(edits: &mut Vec<Edit>, k: usize) -> (r: Edit)
    requires
        k < old(edits)@.len(),
    ensures
        r == old(edits)@[k as int],
        final(edits)@.len() == old(edits)@.len(),
        forall|j: int| 0 <= j < final(edits)@.len() && j != k ==> final(edits)@[j] == old(edits)@[j],
{
    let mut slot = Edit::Remove(0);
    edits.set_and_swap(k, &mut slot);
    slot
}

/// Inserts an entry into a key-ordered vector, from the back.
fn insert_rec(v: Vec<Entry>, e: Entry) -> (r: (Vec<Entry>, Option<Entry>))
    requires
        sorted_by_ino(views_of(v@)),
        v@.len() < usize::MAX,
    ensures
        sorted_by_ino(views_of(r.0@)),
        seq_as_map(views_of(r.0@)) == seq_as_map(views_of(v@)).insert(e@.inode, e@),
        match r.1 {
            Some(p) => key_in_seq(views_of(v@), e@.inode)
                && p@ == seq_as_map(views_of(v@))[e@.inode]
                && r.0@.len() == v@.len(),
            None => !key_in_seq(views_of(v@), e@.inode) && r.0@.len() == v@.len() + 1,
        },
        forall|j: int| 0 <= j < r.0@.len() ==> views_of(r.0@)[j].inode == e@.inode
            || key_in_seq(views_of(v@), views_of(r.0@)[j].inode),
        count_files(views_of(r.0@)) == count_files(views_of(v@)) + (if e@.is_dir {
            0int
        } else {
            1int
        }) - (match r.1 {
            Some(p) => if p@.is_dir {
                0int
            } else {
                1int
            },
            None => 0int,
        }),
    decreases v@.len(),
{
    let ghost s = views_of(v@);
    proof {
        lemma_map_covers(s);
        lemma_map_index(s);
    }
    let mut v = v;
    let n = v.len();
    if n == 0 {
        v.push(e);
        proof {
            let t = views_of(v@);
            assert(t.len() == 1);
            assert(t.drop_last() =~= s);
            assert(t.last() == e@);
            assert(t[0] == e@);
            assert(seq_as_map(t) =~= seq_as_map(s).insert(e@.inode, e@));
            assert(count_files(t) == count_files(s) + if e@.is_dir { 0int } else { 1int });
        }
        return (v, None);
    }
    let last_ino = v[n - 1].ino();
    if last_ino < e.ino() {
        v.push(e);
        proof {
            let t = views_of(v@);
            assert(t.len() == n + 1);
            assert(t.drop_last() =~= s);
            assert(t.last() == e@);
            assert forall|j: int| 0 <= j < n implies t[j] == s[j] by {}
            assert(s[n - 1].inode == last_ino);
            assert forall|i: int, j: int| 0 <= i < j < t.len() implies t[i].inode < t[j].inode by {
                if j == t.len() - 1 {
                    if i < n - 1 {
                        assert(s[i].inode < s[n - 1].inode);
                    }
                } else {
                    assert(s[i].inode < s[j].inode);
                }
            }
            assert(seq_as_map(t) =~= seq_as_map(s).insert(e@.inode, e@));
            if key_in_seq(s, e@.inode) {
                let i = choose|i: int| 0 <= i < s.len() && #[trigger] s[i].inode == e@.inode;
                if i < s.len() - 1 {
                    assert(s[i].inode < s[s.len() - 1].inode);
                }
                assert(false);
            }
            assert forall|j: int| 0 <= j < t.len() implies t[j].inode == e@.inode || key_in_seq(
                s,
                t[j].inode,
            ) by {
                if j < n {
                    assert(s[j].inode == t[j].inode);
                }
            }
            assert(count_files(t) == count_files(s) + if e@.is_dir { 0int } else { 1int });
        }
        return (v, None);
    }
    if last_ino == e.ino() {
        let prior = v.pop().unwrap();
        let ghost s1 = views_of(v@);
        v.push(e);
        proof {
            let t = views_of(v@);
            assert(s1 =~= s.drop_last());
            assert(t.len() == n);
            assert(t.drop_last() =~= s1);
            assert(t.last() == e@);
            assert(s[n - 1].inode == e@.inode);
            assert(key_in_seq(s, e@.inode));
            assert forall|j: int| 0 <= j < n - 1 implies t[j] == s[j] by {
                assert(s1[j] == s[j]);
            }
            assert forall|i: int, j: int| 0 <= i < j < t.len() implies t[i].inode < t[j].inode by {
                if j == t.len() - 1 {
                    assert(s[i].inode < s[n - 1].inode);
                } else {
                    assert(s[i].inode < s[j].inode);
                }
            }
            assert(seq_as_map(t) == seq_as_map(s1).insert(e@.inode, e@));
            assert(seq_as_map(s) == seq_as_map(s1).insert(s.last().inode, s.last()));
            assert(seq_as_map(t) =~= seq_as_map(s).insert(e@.inode, e@));
            assert(prior@ == s.last());
            assert(seq_as_map(s)[e@.inode] == s.last());
            assert forall|j: int| 0 <= j < t.len() implies t[j].inode == e@.inode || key_in_seq(
                s,
                t[j].inode,
            ) by {
                if j < n - 1 {
                    assert(s[j].inode == t[j].inode);
                }
            }
            assert(count_files(t) == count_files(s1) + if e@.is_dir { 0int } else { 1int });
            assert(count_files(s) == count_files(s1) + if s.last().is_dir { 0int } else { 1int });
        }
        return (v, Some(prior));
    }
    // last_ino > e.ino(): set the last element aside and recurse.
    let tail = v.pop().unwrap();
    let ghost s1 = views_of(v@);
    proof {
        assert(s1 =~= s.drop_last());
        lemma_map_drop_last(s);
        lemma_map_covers(s1);
    }
    let (mut v2, prior) = insert_rec(v, e);
    let ghost s2 = views_of(v2@);
    v2.push(tail);
    proof {
        let t = views_of(v2@);
        assert(t.drop_last() =~= s2);
        assert(t.last() == tail@);
        assert(tail@ == s.last());
        // Order: every key in the recursion's result is either the new key
        // or a key of the shorter prefix, both below the tail's key.
        assert forall|i: int, j: int| 0 <= i < j < t.len() implies t[i].inode < t[j].inode by {
            if j == t.len() - 1 {
                assert(s2[i].inode == e@.inode || key_in_seq(s1, s2[i].inode));
                if key_in_seq(s1, s2[i].inode) {
                    let x = choose|x: int| 0 <= x < s1.len() && #[trigger] s1[x].inode == s2[i].inode;
                    assert(s[x].inode < s[s.len() - 1].inode);
                }
            } else {
                assert(s2[i].inode < s2[j].inode);
            }
        }
        // Map: pushing the tail back re-inserts the greatest key.
        assert(seq_as_map(t) == seq_as_map(s2).insert(tail@.inode, tail@));
        assert(!key_in_seq(s1, s.last().inode)) by {
            if key_in_seq(s1, s.last().inode) {
                let x = choose|x: int| 0 <= x < s1.len() && #[trigger] s1[x].inode == s.last().inode;
                assert(s[x].inode < s[s.len() - 1].inode);
            }
        }
        assert(seq_as_map(t) =~= seq_as_map(s).insert(e@.inode, e@)) by {
            assert(seq_as_map(s2) == seq_as_map(s1).insert(e@.inode, e@));
            assert(seq_as_map(s) == seq_as_map(s1).insert(s.last().inode, s.last()));
        }
        // Membership of the key in the full sequence matches the prefix.
        if key_in_seq(s, e@.inode) {
            let x = choose|x: int| 0 <= x < s.len() && #[trigger] s[x].inode == e@.inode;
            assert(x < s.len() - 1);
            assert(s1[x].inode == e@.inode);
        }
        assert(key_in_seq(s1, e@.inode) ==> key_in_seq(s, e@.inode)) by {
            if key_in_seq(s1, e@.inode) {
                let x = choose|x: int| 0 <= x < s1.len() && #[trigger] s1[x].inode == e@.inode;
                assert(s[x].inode == e@.inode);
            }
        }
        if key_in_seq(s1, e@.inode) {
            assert(seq_as_map(s)[e@.inode] == seq_as_map(s1)[e@.inode]);
        }
        // Every key of the result is the new key or an original key.
        assert forall|j: int| 0 <= j < t.len() implies t[j].inode == e@.inode || key_in_seq(
            s,
            t[j].inode,
        ) by {
            if j == t.len() - 1 {
                assert(s[s.len() - 1].inode == t[j].inode);
            } else {
                assert(s2[j].inode == e@.inode || key_in_seq(s1, s2[j].inode));
                if key_in_seq(s1, s2[j].inode) {
                    let x = choose|x: int| 0 <= x < s1.len() && #[trigger] s1[x].inode == s2[j].inode;
                    assert(s[x].inode == t[j].inode);
                }
            }
        }
        // File counts compose through the tail.
        assert(count_files(t) == count_files(s2) + if tail@.is_dir {
            0int
        } else {
            1int
        });
        assert(count_files(s) == count_files(s1) + if s.last().is_dir {
            0int
        } else {
            1int
        });
    }
    (v2, prior)
}

/// Removes the entry with key `ino` from a key-ordered vector, from the
/// back.
fn remove_rec(v: Vec<Entry>, ino: u64) -> (r: (Vec<Entry>, Option<Entry>))
    requires
        sorted_by_ino(views_of(v@)),
    ensures
        sorted_by_ino(views_of(r.0@)),
        seq_as_map(views_of(r.0@)) == seq_as_map(views_of(v@)).remove(ino),
        match r.1 {
            Some(p) => key_in_seq(views_of(v@), ino) && p@ == seq_as_map(views_of(v@))[ino]
                && r.0@.len() + 1 == v@.len(),
            None => !key_in_seq(views_of(v@), ino) && r.0@ == v@,
        },
        forall|j: int| 0 <= j < r.0@.len() ==> key_in_seq(views_of(v@), views_of(r.0@)[j].inode),
        count_files(views_of(r.0@)) == count_files(views_of(v@)) - (match r.1 {
            Some(p) => if p@.is_dir {
                0int
            } else {
                1int
            },
            None => 0int,
        }),
    decreases v@.len(),
{
    let ghost s = views_of(v@);
    proof {
        lemma_map_covers(s);
        lemma_map_index(s);
    }
    let mut v = v;
    let n = v.len();
    if n == 0 {
        proof {
            assert(!key_in_seq(s, ino));
            assert(seq_as_map(s) =~= seq_as_map(s).remove(ino));
        }
        return (v, None);
    }
    let last_ino = v[n - 1].ino();
    if last_ino < ino {
        proof {
            if key_in_seq(s, ino) {
                let i = choose|i: int| 0 <= i < s.len() && #[trigger] s[i].inode == ino;
                if i < s.len() - 1 {
                    assert(s[i].inode < s[s.len() - 1].inode);
                }
                assert(false);
            }
            assert(!seq_as_map(s).contains_key(ino));
            assert(seq_as_map(s) =~= seq_as_map(s).remove(ino));
            assert forall|j: int| 0 <= j < s.len() implies key_in_seq(s, s[j].inode) by {
                assert(0 <= j < s.len() && s[j].inode == s[j].inode);
            }
        }
        return (v, None);
    }
    if last_ino == ino {
        let prior = v.pop().unwrap();
        proof {
            let t = views_of(v@);
            assert(t =~= s.drop_last());
            lemma_map_drop_last(s);
            lemma_sorted_drop_last(s);
            assert(s[s.len() - 1].inode == ino);
            assert(key_in_seq(s, ino));
            assert(prior@ == s.last());
            assert(seq_as_map(s)[ino] == s.last());
            assert forall|j: int| 0 <= j < t.len() implies key_in_seq(s, t[j].inode) by {
                assert(s.drop_last()[j] == s[j]);
                assert(s[j].inode == t[j].inode);
            }
            assert(count_files(s) == count_files(t) + if s.last().is_dir { 0int } else { 1int });
        }
        return (v, Some(prior));
    }
    // last_ino > ino: set the last element aside and recurse.
    let tail = v.pop().unwrap();
    let ghost s1 = views_of(v@);
    proof {
        assert(s1 =~= s.drop_last());
        lemma_map_drop_last(s);
        lemma_map_covers(s1);
    }
    let (mut v2, prior) = remove_rec(v, ino);
    let ghost s2 = views_of(v2@);
    v2.push(tail);
    proof {
        let t = views_of(v2@);
        assert(t.drop_last() =~= s2);
        assert(t.last() == tail@);
        assert(tail@ == s.last());
        assert forall|i: int, j: int| 0 <= i < j < t.len() implies t[i].inode < t[j].inode by {
            if j == t.len() - 1 {
                assert(key_in_seq(s1, s2[i].inode));
                let x = choose|x: int| 0 <= x < s1.len() && #[trigger] s1[x].inode == s2[i].inode;
                assert(s[x].inode < s[s.len() - 1].inode);
            } else {
                assert(s2[i].inode < s2[j].inode);
            }
        }
        assert(seq_as_map(t) == seq_as_map(s2).insert(tail@.inode, tail@));
        assert(seq_as_map(t) =~= seq_as_map(s).remove(ino)) by {
            assert(seq_as_map(s2) == seq_as_map(s1).remove(ino));
            assert(seq_as_map(s) == seq_as_map(s1).insert(s.last().inode, s.last()));
            assert(s.last().inode != ino);
        }
        if key_in_seq(s, ino) {
            let x = choose|x: int| 0 <= x < s.len() && #[trigger] s[x].inode == ino;
            assert(x < s.len() - 1);
            assert(s1[x].inode == ino);
        }
        assert(key_in_seq(s1, ino) ==> key_in_seq(s, ino)) by {
            if key_in_seq(s1, ino) {
                let x = choose|x: int| 0 <= x < s1.len() && #[trigger] s1[x].inode == ino;
                assert(s[x].inode == ino);
            }
        }
        if key_in_seq(s1, ino) {
            assert(seq_as_map(s)[ino] == seq_as_map(s1)[ino]);
        }
        assert forall|j: int| 0 <= j < t.len() implies key_in_seq(s, t[j].inode) by {
            if j == t.len() - 1 {
                assert(s[s.len() - 1].inode == t[j].inode);
            } else {
                assert(key_in_seq(s1, s2[j].inode));
                let x = choose|x: int| 0 <= x < s1.len() && #[trigger] s1[x].inode == s2[j].inode;
                assert(s[x].inode == t[j].inode);
            }
        }
        assert(count_files(t) == count_files(s2) + if tail@.is_dir {
            0int
        } else {
            1int
        });
        assert(count_files(s) == count_files(s1) + if s.last().is_dir {
            0int
        } else {
            1int
        });
    }
    (v2, prior)
}

} // verus!
