//! The selection state machine: a directory browser with a bounded, ordered
//! selection of image paths.
//!
//! The browser owns the current directory, the materialized entry list, a
//! cursor into it, and up to four selected image paths. Listing a directory
//! is the caller's job (it is the only input/output here); the browser
//! filters, orders and navigates the result. The current directory only
//! changes through a successful refresh, so a failed listing leaves the
//! state untouched.

use vstd::prelude::*;
use vstd::multiset::Multiset;
use crate::utils::{
    is_image_path, is_image_file, file_name_of, file_name_vec, subvec, parent_of, parent_path_of,
    eq_bytes,
};

verus! {

broadcast use vstd::seq_lib::group_to_multiset_ensures, vstd::multiset::group_multiset_axioms;

/// One entry of a directory listing: a path and whether it is a directory.
pub struct Entry {
    pub path: Vec<u8>,
    pub is_dir: bool,
}

/// Byte-wise lexicographic order on byte strings.
pub open spec fn lex_le(a: Seq<u8>, b: Seq<u8>) -> bool
    decreases a.len(),
{
    if a.len() == 0 {
        true
    } else if b.len() == 0 {
        false
    } else if a[0] < b[0] {
        true
    } else if a[0] > b[0] {
        false
    } else {
        lex_le(a.subrange(1, a.len() as int), b.subrange(1, b.len() as int))
    }
}

/// The listing order: directories before files, then lexicographic by file
/// name.
pub open spec fn entry_le(a: Entry, b: Entry) -> bool {
    if a.is_dir != b.is_dir {
        a.is_dir
    } else {
        lex_le(file_name_of(a.path@), file_name_of(b.path@))
    }
}

/// Whether a listing is ordered: directories first, then by file name.
pub open spec fn entries_sorted(s: Seq<Entry>) -> bool {
    forall|i: int, j: int| 0 <= i < j < s.len() ==> entry_le(s[i], s[j])
}

/// The paths of a selection, as byte strings.
pub open spec fn paths_of(sel: Seq<Vec<u8>>) -> Seq<Seq<u8>> {
    sel.map_values(|v: Vec<u8>| v@)
}

/// Whether a selection holds the given path.
pub open spec fn has_path(sel: Seq<Vec<u8>>, p: Seq<u8>) -> bool {
    exists|i: int| 0 <= i < sel.len() && sel[i]@ == p
}

/// File explorer for navigating directories and selecting up to four images.
pub struct FileExplorer {
    pub current_dir: Vec<u8>,
    pub entries: Vec<Entry>,
    pub selected_index: usize,
    pub selected_images: Vec<Vec<u8>>,
}

impl FileExplorer {
    /// The state invariant: at most four distinct selected image paths, a
    /// cursor that stays inside the entry list, and an ordered list whose
    /// entries are directories or image files.
    pub open spec fn wf(self) -> bool {
        &&& self.selected_images@.len() <= 4
        &&& (forall|i: int, j: int|
            0 <= i < j < self.selected_images@.len() ==> self.selected_images@[i]@
                != self.selected_images@[j]@)
        &&& (forall|i: int|
            0 <= i < self.selected_images@.len() ==> is_image_path(
                #[trigger] self.selected_images@[i]@,
            ))
        &&& (self.entries@.len() == 0 ==> self.selected_index == 0)
        &&& (self.entries@.len() > 0 ==> self.selected_index < self.entries@.len())
        &&& entries_sorted(self.entries@)
        &&& (forall|i: int|
            0 <= i < self.entries@.len() ==> (#[trigger] self.entries@[i]).is_dir || is_image_path(
                self.entries@[i].path@,
            ))
    }

    /// Ghost views of the fields, for contracts.
    pub open spec fn spec_current_dir(self) -> Seq<u8> {
        self.current_dir@
    }

    pub open spec fn spec_entries(self) -> Seq<Entry> {
        self.entries@
    }

    pub open spec fn spec_selected_index(self) -> usize {
        self.selected_index
    }

    pub open spec fn spec_selection(self) -> Seq<Seq<u8>> {
        paths_of(self.selected_images@)
    }

    /// The entry under the cursor; meaningful only when the list is nonempty.
    pub open spec fn cursor_entry(self) -> Entry {
        self.entries@[self.selected_index as int]
    }

    /// A fresh explorer at the given directory, with nothing listed and
    /// nothing selected. List the directory and hand the result to
    /// `refresh_entries` to populate it.
    pub fn new(start_dir: Vec<u8>) -> (r: Self)
        ensures
            r.wf(),
            r.spec_current_dir() == start_dir@,
            r.spec_entries().len() == 0,
            r.spec_selected_index() == 0,
            r.spec_selection().len() == 0,
    {
        FileExplorer {
            current_dir: start_dir,
            entries: Vec::new(),
            selected_index: 0,
            selected_images: Vec::new(),
        }
    }

    /// Moves the cursor up one entry, stopping at the top.
    pub fn move_up(&mut self)
        requires
            old(self).wf(),
        ensures
            final(self).wf(),
            final(self).spec_selected_index() == if old(self).spec_selected_index() > 0 {
                old(self).spec_selected_index() - 1
            } else {
                0int
            },
            final(self).spec_current_dir() == old(self).spec_current_dir(),
            final(self).spec_entries() == old(self).spec_entries(),
            final(self).spec_selection() == old(self).spec_selection(),
    {
        if self.selected_index > 0 {
            self.selected_index = self.selected_index - 1;
        }
    }

    /// Moves the cursor down one entry, stopping at the last one.
    pub fn move_down(&mut self)
        requires
            old(self).wf(),
        ensures
            final(self).wf(),
            final(self).spec_selected_index() == if old(self).spec_selected_index() + 1 < old(self).spec_entries().len() {
                old(self).spec_selected_index() + 1
            } else {
                old(self).spec_selected_index() as int
            },
            final(self).spec_current_dir() == old(self).spec_current_dir(),
            final(self).spec_entries() == old(self).spec_entries(),
            final(self).spec_selection() == old(self).spec_selection(),
    {
        if self.entries.len() > 0 && self.selected_index < self.entries.len() - 1 {
            self.selected_index = self.selected_index + 1;
        }
    }

    /// The current directory path.
    pub fn current_dir(&self) -> (r: &Vec<u8>)
        ensures
            r@ == self.spec_current_dir(),
    {
        &self.current_dir
    }

    /// The entries of the current directory, in listing order.
    pub fn entries(&self) -> (r: &Vec<Entry>)
        ensures
            r@ == self.spec_entries(),
    {
        &self.entries
    }

    /// The cursor: the index of the highlighted entry.
    pub fn selected_index(&self) -> (r: usize)
        ensures
            r == self.spec_selected_index(),
    {
        self.selected_index
    }

    /// The selected image paths, in selection order.
    pub fn selected_images(&self) -> (r: &Vec<Vec<u8>>)
        ensures
            paths_of(r@) == self.spec_selection(),
    {
        &self.selected_images
    }

    /// Acts on the entry under the cursor.
    ///
    /// A directory is returned as a navigation request: list it and hand the
    /// result to `refresh_entries` (on a failed listing, simply do not; the
    /// state is unchanged either way). An image file is toggled: deselected
    /// when selected, appended when fewer than four are selected, and
    /// ignored when the selection is full.
    #[verifier::loop_isolation(false)]
    #[verifier::rlimit(50)]
    pub fn enter_selected(&mut self) -> (r: Option<Vec<u8>>)
        requires
            old(self).wf(),
        ensures
            final(self).wf(),
            final(self).spec_current_dir() == old(self).spec_current_dir(),
            final(self).spec_entries() == old(self).spec_entries(),
            final(self).spec_selected_index() == old(self).spec_selected_index(),
            old(self).spec_entries().len() == 0 ==> r is None && final(self).spec_selection()
                == old(self).spec_selection(),
            old(self).spec_entries().len() > 0 && old(self).cursor_entry().is_dir ==> (
            r matches Some(d) && d@ == old(self).cursor_entry().path@) && final(self).spec_selection() == old(self).spec_selection(),
            old(self).spec_entries().len() > 0 && !old(self).cursor_entry().is_dir ==> r is None,
            old(self).spec_entries().len() > 0 && !old(self).cursor_entry().is_dir && has_path(
                old(self).selected_images@,
                old(self).cursor_entry().path@,
            ) ==> exists|i: int|
                0 <= i < old(self).spec_selection().len() && old(self).spec_selection()[i] == old(self).cursor_entry().path@ && final(self).spec_selection() == old(self).spec_selection().remove(i),
            old(self).spec_entries().len() > 0 && !old(self).cursor_entry().is_dir && !has_path(
                old(self).selected_images@,
                old(self).cursor_entry().path@,
            ) && old(self).spec_selection().len() < 4 ==> final(self).spec_selection() == old(self).spec_selection().push(old(self).cursor_entry().path@),
            old(self).spec_entries().len() > 0 && !old(self).cursor_entry().is_dir && !has_path(
                old(self).selected_images@,
                old(self).cursor_entry().path@,
            ) && old(self).spec_selection().len() >= 4 ==> final(self).spec_selection() == old(self).spec_selection(),
    {
        if self.entries.len() == 0 {
            return None;
        }
        let e_is_dir = self.entries[self.selected_index].is_dir;
        if e_is_dir {
            let d = subvec(&self.entries[self.selected_index].path, 0, self.entries[self.selected_index].path.len());
            proof {
                assert(d@ =~= self.entries@[self.selected_index as int].path@);
            }
            return Some(d);
        }
        let ghost old_sel = self.selected_images@;
        let ghost p = self.entries@[self.selected_index as int].path@;
        let mut i: usize = 0;
        while i < self.selected_images.len()
            invariant
                i <= self.selected_images@.len(),
                self.selected_images@ == old_sel,
                self.entries@[self.spec_selected_index() as int].path@ == p,
                self == old(self),
                old(self).wf(),
                0 <= self.spec_selected_index() < self.entries@.len(),
                forall|j: int| 0 <= j < i ==> old_sel[j]@ != p,
            decreases self.selected_images@.len() - i,
        {
            if eq_bytes(&self.selected_images[i], &self.entries[self.selected_index].path) {
                self.selected_images.remove(i);
                proof {
                    lemma_paths_of_remove(old_sel, i as int);
                    assert(has_path(old_sel, p));
                    assert(paths_of(old_sel)[i as int] == p);
                    assert(paths_of(self.selected_images@) == paths_of(old_sel).remove(i as int));
                    assert(paths_of(old_sel) == old(self).spec_selection());
                    assert(p == old(self).cursor_entry().path@);
                    assert(exists|j: int|
                        0 <= j < old(self).spec_selection().len() && old(self).spec_selection()[j]
                            == old(self).cursor_entry().path@ && paths_of(self.selected_images@)
                            == old(self).spec_selection().remove(j));
                    assert forall|a: int, b: int|
                        0 <= a < b < self.selected_images@.len() implies self.selected_images@[a]@
                        != self.selected_images@[b]@ by {
                        assert(self.selected_images@[a] == if a < i {
                            old_sel[a]
                        } else {
                            old_sel[a + 1]
                        });
                        assert(self.selected_images@[b] == if b < i {
                            old_sel[b]
                        } else {
                            old_sel[b + 1]
                        });
                    }
                    assert forall|a: int| 0 <= a < self.selected_images@.len() implies is_image_path(
                        #[trigger] self.selected_images@[a]@,
                    ) by {
                        assert(self.selected_images@[a] == if a < i {
                            old_sel[a]
                        } else {
                            old_sel[a + 1]
                        });
                    }
                }
                return None;
            }
            i = i + 1;
        }
        assert(!has_path(old_sel, p));
        if self.selected_images.len() < 4 {
            let pv = subvec(&self.entries[self.selected_index].path, 0, self.entries[self.selected_index].path.len());
            proof {
                assert(pv@ =~= p);
            }
            self.selected_images.push(pv);
            proof {
                lemma_paths_of_push(old_sel, pv);
            }
        }
        None
    }

    /// Navigates to the parent directory, as a request: list the returned
    /// directory and hand the result to `refresh_entries`. At the root there
    /// is no parent and nothing happens.
    pub fn go_up(&mut self) -> (r: Option<Vec<u8>>)
        requires
            old(self).wf(),
        ensures
            *final(self) == *old(self),
            final(self).wf(),
            match r {
                Some(d) => parent_of(old(self).spec_current_dir()) == Some(d@),
                None => parent_of(old(self).spec_current_dir()) is None,
            },
    {
        parent_path_of(&self.current_dir)
    }

    /// The committed result: the four selected paths in selection order,
    /// available exactly when four images are selected.
    #[verifier::loop_isolation(false)]
    pub fn commit(&self) -> (r: Option<Vec<Vec<u8>>>)
        requires
            self.wf(),
        ensures
            r is Some <==> self.spec_selection().len() == 4,
            r matches Some(v) ==> paths_of(v@) == self.spec_selection(),
    {
        if self.selected_images.len() == 4 {
            let mut out: Vec<Vec<u8>> = Vec::new();
            let mut i: usize = 0;
            while i < self.selected_images.len()
                invariant
                    i <= self.selected_images@.len(),
                    out@.len() == i,
                    forall|j: int| 0 <= j < i ==> out@[j]@ == self.selected_images@[j]@,
                decreases self.selected_images@.len() - i,
            {
                let p = subvec(&self.selected_images[i], 0, self.selected_images[i].len());
                out.push(p);
                i = i + 1;
            }
            proof {
                assert(paths_of(out@) =~= paths_of(self.selected_images@));
            }
            Some(out)
        } else {
            None
        }
    }
}

/// Mapping a selection to its paths commutes with removing one element.
proof fn lemma_paths_of_remove(sel: Seq<Vec<u8>>, i: int)
    requires
        0 <= i < sel.len(),
    ensures
        paths_of(sel.remove(i)) == paths_of(sel).remove(i),
{
    assert(paths_of(sel.remove(i)) =~= paths_of(sel).remove(i));
}

/// Mapping a selection to its paths commutes with appending one element.
proof fn lemma_paths_of_push(sel: Seq<Vec<u8>>, p: Vec<u8>)
    ensures
        paths_of(sel.push(p)) == paths_of(sel).push(p@),
{
    assert(paths_of(sel.push(p)) =~= paths_of(sel).push(p@));
}

/// Deselecting a selected path and selecting it again restores the
/// membership of the selection: together with `lemma_select_deselect`, the
/// law that toggling the same path twice returns to the original membership
/// state. (Deselection takes the path out of the middle; reselection appends
/// it, so the order may differ but the membership does not.)
pub proof fn lemma_deselect_reselect(sel: Seq<Seq<u8>>, i: int)
    requires
        0 <= i < sel.len(),
        sel.len() <= 4,
    ensures
        forall|q: Seq<u8>| sel.remove(i).push(sel[i]).contains(q) <==> sel.contains(q),
{
    let t = sel.remove(i).push(sel[i]);
    assert forall|q: Seq<u8>| t.contains(q) <==> sel.contains(q) by {
        if t.contains(q) {
            let k = choose|k: int| 0 <= k < t.len() && t[k] == q;
            if k == t.len() - 1 {
                assert(sel[i] == q);
            } else if k < i {
                assert(sel[k] == q);
            } else {
                assert(sel[k + 1] == q);
            }
        }
        if sel.contains(q) {
            let k = choose|k: int| 0 <= k < sel.len() && sel[k] == q;
            if k == i {
                assert(t[t.len() - 1] == q);
            } else if k < i {
                assert(t[k] == q);
            } else {
                assert(t[k - 1] == q);
            }
        }
    }
}

/// Selecting a new path and deselecting it again restores the selection
/// exactly: the other half of the toggle-twice law. Deselection removes the
/// index that holds the path; for a freshly appended path that index is the
/// last one.
pub proof fn lemma_select_deselect(sel: Seq<Seq<u8>>, p: Seq<u8>, j: int)
    requires
        !sel.contains(p),
        0 <= j < sel.push(p).len(),
        sel.push(p)[j] == p,
    ensures
        sel.push(p).remove(j) == sel,
{
    if j < sel.len() {
        assert(sel[j] == p);
        assert(sel.contains(p));
    }
    assert(sel.push(p).remove(j) =~= sel);
}

/// The lexicographic order is total.
pub proof fn lemma_lex_le_total(a: Seq<u8>, b: Seq<u8>)
    ensures
        lex_le(a, b) || lex_le(b, a),
    decreases a.len(),
{
    if a.len() > 0 && b.len() > 0 && a[0] == b[0] {
        lemma_lex_le_total(a.subrange(1, a.len() as int), b.subrange(1, b.len() as int));
    }
}

/// The lexicographic order is transitive.
pub proof fn lemma_lex_le_trans(a: Seq<u8>, b: Seq<u8>, c: Seq<u8>)
    requires
        lex_le(a, b),
        lex_le(b, c),
    ensures
        lex_le(a, c),
    decreases a.len(),
{
    if a.len() > 0 && b.len() > 0 && c.len() > 0 && a[0] == b[0] && b[0] == c[0] {
        lemma_lex_le_trans(
            a.subrange(1, a.len() as int),
            b.subrange(1, b.len() as int),
            c.subrange(1, c.len() as int),
        );
    }
}

/// The listing order is total.
pub proof fn lemma_entry_le_total(a: Entry, b: Entry)
    ensures
        entry_le(a, b) || entry_le(b, a),
{
    lemma_lex_le_total(file_name_of(a.path@), file_name_of(b.path@));
}

/// The listing order is transitive.
pub proof fn lemma_entry_le_trans(a: Entry, b: Entry, c: Entry)
    requires
        entry_le(a, b),
        entry_le(b, c),
    ensures
        entry_le(a, c),
{
    if a.is_dir == b.is_dir && b.is_dir == c.is_dir {
        lemma_lex_le_trans(
            file_name_of(a.path@),
            file_name_of(b.path@),
            file_name_of(c.path@),
        );
    }
}

/// A shared prefix does not decide the lexicographic comparison.
proof fn lemma_lex_le_step(a: Seq<u8>, b: Seq<u8>, i: int)
    requires
        0 <= i < a.len(),
        i < b.len(),
        a[i] == b[i],
    ensures
        lex_le(a.skip(i), b.skip(i)) == lex_le(a.skip(i + 1), b.skip(i + 1)),
{
    assert(a.skip(i).subrange(1, a.skip(i).len() as int) =~= a.skip(i + 1));
    assert(b.skip(i).subrange(1, b.skip(i).len() as int) =~= b.skip(i + 1));
}

/// Lexicographic comparison of two byte strings.
#[verifier::loop_isolation(false)]
pub fn lex_le_exec(x: &Vec<u8>, y: &Vec<u8>) -> (r: bool)
    ensures
        r == lex_le(x@, y@),
{
    proof {
        assert(x@.skip(0) =~= x@);
        assert(y@.skip(0) =~= y@);
    }
    let mut i: usize = 0;
    while i < x.len() && i < y.len()
        invariant
            i <= x@.len(),
            i <= y@.len(),
            lex_le(x@, y@) == lex_le(x@.skip(i as int), y@.skip(i as int)),
        decreases x@.len() - i,
    {
        if x[i] < y[i] {
            return true;
        }
        if x[i] > y[i] {
            return false;
        }
        proof {
            lemma_lex_le_step(x@, y@, i as int);
        }
        i = i + 1;
    }
    i >= x.len()
}

/// The listing order, executably.
pub fn entry_le_exec(a: &Entry, b: &Entry) -> (r: bool)
    ensures
        r == entry_le(*a, *b),
{
    if a.is_dir != b.is_dir {
        a.is_dir
    } else {
        let fa = file_name_vec(&a.path);
        let fb = file_name_vec(&b.path);
        lex_le_exec(&fa, &fb)
    }
}

/// Inserting an element anywhere adds exactly it to the multiset.
proof fn lemma_to_multiset_insert<A>(s: Seq<A>, i: int, e: A)
    requires
        0 <= i <= s.len(),
    ensures
        s.insert(i, e).to_multiset() == s.to_multiset().insert(e),
{
    let t = s.insert(i, e);
    s.insert_ensures(i, e);
    assert(t.remove(i) =~= s);
    assert(t[i] == e);
    assert(s.to_multiset() == t.to_multiset().remove(e));
    assert(t.contains(e));
    assert(t.to_multiset().count(e) > 0);
    assert(t.to_multiset() =~= s.to_multiset().insert(e));
}

/// The view of one entry: its path and whether it is a directory.
pub open spec fn entry_view(e: Entry) -> (Seq<u8>, bool) {
    (e.path@, e.is_dir)
}

/// The views of a listing.
pub open spec fn entries_views(s: Seq<Entry>) -> Seq<(Seq<u8>, bool)> {
    s.map_values(|e: Entry| entry_view(e))
}

/// Sorts a listing: directories first, then lexicographic by file name.
/// The result is a permutation of the input.
#[verifier::loop_isolation(false)]
pub fn sort_entries(input: Vec<Entry>) -> (r: Vec<Entry>)
    ensures
        entries_sorted(r@),
        r@.to_multiset() == input@.to_multiset(),
        entries_views(r@).to_multiset() == entries_views(input@).to_multiset(),
{
    let ghost orig = input@;
    let mut v = input;
    let mut out: Vec<Entry> = Vec::new();
    proof {
        assert(out@.to_multiset().add(v@.to_multiset()) =~= orig.to_multiset());
        assert(entries_views(out@).to_multiset().add(entries_views(v@).to_multiset())
            =~= entries_views(orig).to_multiset());
    }
    while v.len() > 0
        invariant
            entries_sorted(out@),
            out@.to_multiset().add(v@.to_multiset()) == orig.to_multiset(),
            entries_views(out@).to_multiset().add(entries_views(v@).to_multiset())
                == entries_views(orig).to_multiset(),
        decreases v@.len(),
    {
        let ghost v_before = v@;
        let e = v.pop().unwrap();
        let ghost out_before = out@;
        let mut pos: usize = 0;
        while pos < out.len() && entry_le_exec(&out[pos], &e)
            invariant
                pos <= out@.len(),
                out@ == out_before,
                forall|k: int| 0 <= k < pos ==> entry_le(out@[k], e),
            decreases out@.len() - pos,
        {
            pos = pos + 1;
        }
        proof {
            if (pos as int) < out_before.len() {
                lemma_entry_le_total(out_before[pos as int], e);
            }
            assert forall|k: int| pos <= k < out_before.len() implies entry_le(
                e,
                out_before[k],
            ) by {
                if pos < k {
                    assert(entry_le(out_before[pos as int], out_before[k]));
                    lemma_entry_le_trans(e, out_before[pos as int], out_before[k]);
                }
            }
        }
        out.insert(pos, e);
        proof {
            out_before.insert_ensures(pos as int, e);
            assert forall|a: int, b: int| 0 <= a < b < out@.len() implies entry_le(
                out@[a],
                out@[b],
            ) by {
                if b < pos {
                    assert(out@[a] == out_before[a] && out@[b] == out_before[b]);
                } else if a > pos {
                    assert(out@[a] == out_before[a - 1] && out@[b] == out_before[b - 1]);
                } else if a == pos {
                    assert(out@[a] == e && out@[b] == out_before[b - 1]);
                } else if b == pos {
                    assert(out@[a] == out_before[a] && out@[b] == e);
                } else {
                    assert(a < pos && pos < b);
                    assert(out@[a] == out_before[a] && out@[b] == out_before[b - 1]);
                }
            }
            lemma_to_multiset_insert(out_before, pos as int, e);
            assert(entries_views(out@) =~= entries_views(out_before).insert(
                pos as int,
                entry_view(e),
            )) by {
                entries_views(out_before).insert_ensures(pos as int, entry_view(e));
            }
            lemma_to_multiset_insert(entries_views(out_before), pos as int, entry_view(e));
            assert(v_before =~= v@.push(e));
            assert(v_before.to_multiset() == v@.to_multiset().insert(e));
            assert(entries_views(v_before) =~= entries_views(v@).push(entry_view(e)));
            assert(entries_views(v_before).to_multiset() == entries_views(v@).to_multiset().insert(
                entry_view(e),
            ));
            assert(out@.to_multiset().add(v@.to_multiset()) =~= orig.to_multiset());
            assert(entries_views(out@).to_multiset().add(entries_views(v@).to_multiset())
                =~= entries_views(orig).to_multiset());
        }
    }
    proof {
        assert(v@.to_multiset() =~= Multiset::<Entry>::empty());
        assert(entries_views(v@).to_multiset() =~= Multiset::<(Seq<u8>, bool)>::empty());
        assert(out@.to_multiset() =~= orig.to_multiset());
        assert(entries_views(out@).to_multiset() =~= entries_views(orig).to_multiset());
    }
    out
}

/// Whether a raw listing entry is kept: all directories, and the files whose
/// extension names a supported image format.
pub open spec fn keep_entry(e: Entry) -> bool {
    e.is_dir || is_image_path(e.path@)
}

/// The views of the kept entries among the first `n`, in order.
pub open spec fn kept_views_upto(s: Seq<Entry>, n: int) -> Seq<(Seq<u8>, bool)>
    decreases n,
{
    if n <= 0 {
        Seq::empty()
    } else if keep_entry(s[n - 1]) {
        kept_views_upto(s, n - 1).push(entry_view(s[n - 1]))
    } else {
        kept_views_upto(s, n - 1)
    }
}

/// The views of the kept entries of a raw listing.
pub open spec fn kept_views(s: Seq<Entry>) -> Seq<(Seq<u8>, bool)> {
    kept_views_upto(s, s.len() as int)
}

/// What a refreshed listing holds: the parent directory when there is one,
/// and the kept children.
pub open spec fn listing_views(dir: Seq<u8>, children: Seq<Entry>) -> Seq<(Seq<u8>, bool)> {
    match parent_of(dir) {
        Some(p) => seq![(p, true)] + kept_views(children),
        None => kept_views(children),
    }
}

impl FileExplorer {
    /// Replaces the listing with a fresh one for `dir`, whose immediate
    /// children are given raw in `children`: the parent directory (when one
    /// exists) is added, non-image files are dropped, the rest is ordered
    /// directories-first then by file name, and the cursor returns to the
    /// top. The selection is untouched. Call this only with a successful
    /// listing: a failed one leaves the state as it was.
    #[verifier::loop_isolation(false)]
    pub fn refresh_entries(&mut self, dir: Vec<u8>, children: &Vec<Entry>)
        requires
            old(self).wf(),
        ensures
            final(self).wf(),
            final(self).spec_current_dir() == dir@,
            final(self).spec_selected_index() == 0,
            final(self).spec_selection() == old(self).spec_selection(),
            entries_sorted(final(self).spec_entries()),
            entries_views(final(self).spec_entries()).to_multiset() == listing_views(
                dir@,
                children@,
            ).to_multiset(),
    {
        let mut base: Vec<Entry> = Vec::new();
        match parent_path_of(&dir) {
            Some(p) => {
                base.push(Entry { path: p, is_dir: true });
            },
            None => {},
        }
        let ghost base0 = base@;
        proof {
            match parent_of(dir@) {
                Some(p) => {
                    assert(entries_views(base0) =~= seq![(p, true)]);
                },
                None => {
                    assert(entries_views(base0) =~= Seq::<(Seq<u8>, bool)>::empty());
                },
            }
            assert(entries_views(base@) =~= entries_views(base0) + kept_views_upto(children@, 0));
        }
        let mut i: usize = 0;
        while i < children.len()
            invariant
                i <= children@.len(),
                entries_views(base@) == entries_views(base0) + kept_views_upto(
                    children@,
                    i as int,
                ),
                forall|k: int| 0 <= k < base@.len() ==> keep_entry(#[trigger] base@[k]),
            decreases children@.len() - i,
        {
            let is_dir = children[i].is_dir;
            if is_dir || is_image_file(&children[i].path) {
                let ghost prev = base@;
                let path = subvec(&children[i].path, 0, children[i].path.len());
                proof {
                    assert(path@ =~= children@[i as int].path@);
                }
                base.push(Entry { path, is_dir });
                proof {
                    assert(entry_view(base@[base@.len() - 1]) == entry_view(children@[i as int]));
                    assert(entries_views(base@) =~= entries_views(prev).push(
                        entry_view(children@[i as int]),
                    ));
                    assert((entries_views(base0) + kept_views_upto(children@, i as int)).push(
                        entry_view(children@[i as int]),
                    ) =~= entries_views(base0) + kept_views_upto(children@, i + 1));
                }
            }
            i = i + 1;
        }
        proof {
            assert(entries_views(base@) =~= listing_views(dir@, children@));
        }
        let sorted = sort_entries(base);
        self.entries = sorted;
        self.selected_index = 0;
        self.current_dir = dir;
        proof {
            assert forall|k: int| 0 <= k < self.entries@.len() implies (
            #[trigger] self.entries@[k]).is_dir || is_image_path(self.entries@[k].path@) by {
                let e = self.entries@[k];
                assert(self.entries@.contains(e));
                assert(self.entries@.to_multiset().count(e) > 0);
            }
        }
    }
}

/// Configuration for an interactive session: where to write the collage,
/// the border width, the per-image size, and the JPEG quality.
pub struct TuiConfig {
    pub output: Vec<u8>,
    pub border: u32,
    pub size: u32,
    pub quality: u8,
}

} // verus!
