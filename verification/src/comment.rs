//! Cell comments (notes): short author-attributed text attached to a cell.
//!
//! Storage is sparse: three comments on a sheet cost three entries, whatever its
//! size. Comments are kept by row, and each row holds its comments in column order,
//! so that a caller painting a grid asks once per visible row.

use crate::capacity::{
    at_most_max, capacity_of, capped_mul, capped_total, lemma_capped_factor, text_capacity, total,
};
use crate::table::CellRef;
use std::collections::BTreeMap;
use std::collections::HashMap;
use std::sync::atomic::{AtomicU64, Ordering};
use vstd::layout::size_of;
use vstd::prelude::*;
use vstd::std_specs::cmp::{OrdSpec, PartialEqSpec};
use vstd::std_specs::iter::IteratorSpec;

verus! {

broadcast use {
    vstd::std_specs::btree::group_btree_axioms,
    vstd::std_specs::hash::group_hash_axioms,
    vstd::laws_cmp::group_laws_cmp,
};

/// Longest comment text stored on one cell, in characters.
pub const MAX_COMMENT_CHARS: usize = 32_000;

/// One cell's note.
#[derive(Debug, PartialEq, Eq)]
pub struct Comment {
    /// Who wrote it. Empty means "unattributed".
    pub author: String,
    pub text: String,
}

#[verifier::ext_equal]
pub ghost struct CommentView {
    pub author: Seq<char>,
    pub text: Seq<char>,
}

impl View for Comment {
    type V = CommentView;

    open spec fn view(&self) -> CommentView {
        CommentView { author: self.author@, text: self.text@ }
    }
}

/// A text cut off after the longest length that is stored.
pub open spec fn clamped(s: Seq<char>) -> Seq<char> {
    if s.len() <= MAX_COMMENT_CHARS {
        s
    } else {
        s.subrange(0, MAX_COMMENT_CHARS as int)
    }
}

impl CommentView {
    /// As it is stored.
    pub open spec fn stored(self) -> CommentView {
        CommentView { author: self.author, text: clamped(self.text) }
    }
}

impl Clone for Comment {
    fn clone(&self) -> (r: Comment)
        ensures
            r@ == self@,
    {
        Comment { author: self.author.clone(), text: self.text.clone() }
    }
}

impl Default for Comment {
    fn default() -> (r: Comment)
        ensures
            r@ == (CommentView { author: Seq::empty(), text: Seq::empty() }),
    {
        Comment { author: String::new(), text: String::new() }
    }
}

impl Comment {
    pub fn new(author: &str, text: &str) -> (c: Comment)
        ensures
            c@ == (CommentView { author: author@, text: text@ }),
    {
        Comment { author: author.to_owned(), text: text.to_owned() }
    }

    /// Heap cost of this comment's strings: their bytes, and what room they have
    /// to spare.
    pub fn heap_bytes(&self) -> (n: usize)
        ensures
            note_takes(self@, n),
    {
        let author: usize = text_capacity(&self.author);
        let text: usize = text_capacity(&self.text);
        assert(strings_fit(self@, author, text));
        author.saturating_add(text)
    }

    /// Text cut to [`MAX_COMMENT_CHARS`], on a character boundary.
    fn clamp(text: String) -> (r: String)
        ensures
            r@ == clamped(text@),
    {
        let mut out = String::new();
        let mut n: usize = 0;
        let ghost all = text@;
        for c in it: text.as_str().chars()
            invariant_except_break
                it.seq() == all,
                n == it.index(),
                n <= MAX_COMMENT_CHARS,
                out@ == all.subrange(0, n as int),
            ensures
                out@ == clamped(all),
        {
            if n == MAX_COMMENT_CHARS {
                break;
            }
            out.push(c);
            n = n + 1;
            assert(out@ =~= all.subrange(0, n as int));
        }
        out
    }
}

/// There is room for the bytes of a comment's strings.
pub open spec fn strings_fit(c: CommentView, author: usize, text: usize) -> bool {
    &&& author >= vstd::utf8::encode_utf8(c.author).len()
    &&& text >= vstd::utf8::encode_utf8(c.text).len()
}

/// What a comment's strings take: the bytes there is room for.
pub open spec fn note_takes(c: CommentView, n: usize) -> bool {
    exists|author: usize, text: usize| #[trigger]
        strings_fit(c, author, text) && n == at_most_max(author + text)
}

/// What an entry of a row takes besides its strings.
pub open spec fn entry_bytes() -> int {
    (size_of::<u32>() + size_of::<Comment>()) as int
}

/// What a row takes besides its entries.
pub open spec fn row_bytes() -> int {
    (size_of::<u32>() + size_of::<Vec<(u32, Comment)>>()) as int
}

/// and what the strings of each comment take.
pub fn comments_bytes(slots: &Vec<usize>, strings: &Vec<usize>) -> (n: usize)
    ensures
        n == at_most_max(
            total(slots@) * entry_bytes() + slots@.len() * row_bytes() + total(strings@),
        ),
{
    let entry: usize = std::mem::size_of::<u32>().saturating_add(std::mem::size_of::<Comment>());
    let row: usize = std::mem::size_of::<u32>().saturating_add(
        std::mem::size_of::<Vec<(u32, Comment)>>(),
    );
    let room: usize = capped_total(slots);
    let bytes: usize = capped_total(strings);
    proof {
        lemma_capped_factor(room as int, entry_bytes());
        lemma_capped_factor(entry_bytes(), total(slots@));
        lemma_capped_factor(slots@.len() as int, row_bytes());
        assert(total(slots@) * entry_bytes() == entry_bytes() * total(slots@)
            && room * entry_bytes() == entry_bytes() * room) by (nonlinear_arith);
        assert(total(slots@) * entry_bytes() >= 0 && slots@.len() * row_bytes() >= 0)
            by (nonlinear_arith)
            requires
                total(slots@) >= 0,
                entry_bytes() >= 0,
                row_bytes() >= 0,
        ;
    }
    capped_mul(room, entry).saturating_add(capped_mul(slots.len(), row)).saturating_add(bytes)
}

/// The rows that have a comment.
pub open spec fn rows_of(m: Map<CellRef, CommentView>) -> Set<u32> {
    m.dom().map(|c: CellRef| c.row)
}

/// The cells of a row that have a comment.
pub open spec fn cells_of_row(m: Map<CellRef, CommentView>, row: u32) -> Set<CellRef> {
    m.dom().filter(|c: CellRef| c.row == row)
}

/// `slots` are room for the entries of each row, from the first row to the last, and
/// `strings` what the strings of each comment take, in (row, column) order.
pub open spec fn comments_fit(
    m: Map<CellRef, CommentView>,
    rows: Seq<u32>,
    cells: Seq<CellRef>,
    slots: Seq<usize>,
    strings: Seq<usize>,
) -> bool {
    &&& forall|i: int, j: int| 0 <= i < j < rows.len() ==> #[trigger] rows[i] < #[trigger] rows[j]
    &&& rows.to_set() == rows_of(m)
    &&& forall|i: int, j: int|
        0 <= i < j < cells.len() ==> comes_before(#[trigger] cells[i], #[trigger] cells[j])
    &&& cells.to_set() == m.dom()
    &&& slots.len() == rows.len()
    &&& forall|i: int|
        0 <= i < rows.len() ==> #[trigger] slots[i] >= cells_of_row(m, rows[i]).len()
    &&& strings.len() == cells.len()
    &&& forall|i: int| 0 <= i < cells.len() ==> note_takes(m[cells[i]], #[trigger] strings[i])
}

/// What the comments of a sheet take.
pub open spec fn comments_take(m: Map<CellRef, CommentView>, n: usize) -> bool {
    exists|rows: Seq<u32>, cells: Seq<CellRef>, slots: Seq<usize>, strings: Seq<usize>| #[trigger]
        comments_fit(m, rows, cells, slots, strings) && n == at_most_max(
            total(slots) * entry_bytes() + slots.len() * row_bytes() + total(strings),
        )
}

// ------------------------------------------------------------------- rows --

/// The comments of one row, in column order.
pub open spec fn in_columns(v: Seq<(u32, Comment)>) -> bool {
    forall|i: int, j: int| 0 <= i < j < v.len() ==> (#[trigger] v[i]).0 < (#[trigger] v[j]).0
}

/// Entry `i` is that of the column.
pub open spec fn entry_at(v: Seq<(u32, Comment)>, col: u32, i: int) -> bool {
    0 <= i < v.len() && v[i].0 == col
}

pub open spec fn has_column(v: Seq<(u32, Comment)>, col: u32) -> bool {
    exists|i: int| #[trigger] entry_at(v, col, i)
}

/// The comment of a column.
pub open spec fn of_column(v: Seq<(u32, Comment)>, col: u32) -> CommentView {
    v[choose|i: int| #[trigger] entry_at(v, col, i)].1@
}

/// Finds a column among a row's comments: where it is, or where it would go.
fn locate(v: &Vec<(u32, Comment)>, col: u32) -> (r: (usize, bool))
    requires
        in_columns(v@),
    ensures
        r.0 <= v@.len(),
        forall|i: int| 0 <= i < r.0 ==> (#[trigger] v@[i]).0 < col,
        forall|i: int| r.0 <= i < v@.len() ==> (#[trigger] v@[i]).0 >= col,
        r.1 == has_column(v@, col),
        r.1 ==> entry_at(v@, col, r.0 as int),
{
    let mut lo: usize = 0;
    let mut hi: usize = v.len();
    while lo < hi
        invariant
            in_columns(v@),
            lo <= hi <= v@.len(),
            forall|i: int| 0 <= i < lo ==> (#[trigger] v@[i]).0 < col,
            forall|i: int| hi <= i < v@.len() ==> (#[trigger] v@[i]).0 >= col,
        decreases hi - lo,
    {
        let mid: usize = lo + (hi - lo) / 2;
        if v[mid].0 < col {
            lo = mid + 1;
        } else {
            hi = mid;
        }
    }
    if lo < v.len() && v[lo].0 == col {
        assert(entry_at(v@, col, lo as int));
        (lo, true)
    } else {
        proof {
            assert forall|i: int| !(#[trigger] entry_at(v@, col, i)) by {}
        }
        (lo, false)
    }
}

proof fn lemma_of_column(v: Seq<(u32, Comment)>, col: u32, i: int)
    requires
        in_columns(v),
        entry_at(v, col, i),
    ensures
        has_column(v, col),
        of_column(v, col) == v[i].1@,
{
    let k = choose|k: int| #[trigger] entry_at(v, col, k);
    if k < i {
        assert(v[k].0 < v[i].0);
    } else if i < k {
        assert(v[i].0 < v[k].0);
    }
}

/// A row after one of its columns was given a comment.
proof fn lemma_row_set(
    v: Seq<(u32, Comment)>,
    w: Seq<(u32, Comment)>,
    at: int,
    col: u32,
    comment: Comment,
)
    requires
        in_columns(v),
        0 <= at <= v.len(),
        forall|i: int| 0 <= i < at ==> (#[trigger] v[i]).0 < col,
        forall|i: int| at <= i < v.len() ==> (#[trigger] v[i]).0 >= col,
        has_column(v, col) ==> entry_at(v, col, at) && w == v.update(at, (col, comment)),
        !has_column(v, col) ==> w == v.insert(at, (col, comment)),
    ensures
        in_columns(w),
        w.len() > 0,
        has_column(w, col),
        of_column(w, col) == comment@,
        forall|c: u32| c != col ==> #[trigger] has_column(w, c) == has_column(v, c),
        forall|c: u32|
            c != col && has_column(v, c) ==> #[trigger] of_column(w, c) == of_column(v, c),
{
    let fresh = !has_column(v, col);
    assert forall|i: int| at <= i < v.len() && fresh implies (#[trigger] v[i]).0 > col by {
        if v[i].0 == col {
            assert(entry_at(v, col, i));
        }
    }
    assert forall|i: int, j: int| 0 <= i < j < w.len() implies (#[trigger] w[i]).0 < (
    #[trigger] w[j]).0 by {
        let a = if fresh && i > at {
            i - 1
        } else {
            i
        };
        let b = if fresh && j > at {
            j - 1
        } else {
            j
        };
        if i != at {
            assert(w[i] == v[a]);
        }
        if j != at {
            assert(w[j] == v[b]);
        }
        if i != at && j != at {
            assert(v[a].0 < v[b].0);
        } else if i == at && !fresh {
            assert(v[at].0 < v[j].0);
        } else if j == at && !fresh {
            assert(v[i].0 < v[at].0);
        }
    }
    assert(entry_at(w, col, at));
    lemma_of_column(w, col, at);
    assert forall|c: u32| c != col implies #[trigger] has_column(w, c) == has_column(v, c) by {
        if has_column(w, c) {
            let i = choose|i: int| #[trigger] entry_at(w, c, i);
            let a = if fresh && i > at {
                i - 1
            } else {
                i
            };
            assert(entry_at(v, c, a));
        }
        if has_column(v, c) {
            let i = choose|i: int| #[trigger] entry_at(v, c, i);
            let a = if fresh && i >= at {
                i + 1
            } else {
                i
            };
            assert(entry_at(w, c, a));
        }
    }
    assert forall|c: u32| c != col && has_column(v, c) implies #[trigger] of_column(w, c)
        == of_column(v, c) by {
        let i = choose|i: int| #[trigger] entry_at(v, c, i);
        lemma_of_column(v, c, i);
        let a = if fresh && i >= at {
            i + 1
        } else {
            i
        };
        assert(entry_at(w, c, a));
        lemma_of_column(w, c, a);
    }
}

/// A row after one of its comments was taken out.
proof fn lemma_row_removed(
    v: Seq<(u32, Comment)>,
    w: Seq<(u32, Comment)>,
    at: int,
    col: u32,
)
    requires
        in_columns(v),
        entry_at(v, col, at),
        w == v.remove(at),
    ensures
        in_columns(w),
        !has_column(w, col),
        forall|c: u32| c != col ==> #[trigger] has_column(w, c) == has_column(v, c),
        forall|c: u32|
            c != col && has_column(v, c) ==> #[trigger] of_column(w, c) == of_column(v, c),
{
    assert forall|i: int, j: int| 0 <= i < j < w.len() implies (#[trigger] w[i]).0 < (
    #[trigger] w[j]).0 by {
        let a = if i >= at {
            i + 1
        } else {
            i
        };
        let b = if j >= at {
            j + 1
        } else {
            j
        };
        assert(w[i] == v[a] && w[j] == v[b]);
        assert(v[a].0 < v[b].0);
    }
    assert forall|i: int| !(#[trigger] entry_at(w, col, i)) by {
        if 0 <= i < w.len() {
            let a = if i >= at {
                i + 1
            } else {
                i
            };
            assert(w[i] == v[a]);
            if a < at {
                assert(v[a].0 < v[at].0);
            } else {
                assert(v[at].0 < v[a].0);
            }
        }
    }
    assert forall|c: u32| c != col implies #[trigger] has_column(w, c) == has_column(v, c) by {
        if has_column(w, c) {
            let i = choose|i: int| #[trigger] entry_at(w, c, i);
            let a = if i >= at {
                i + 1
            } else {
                i
            };
            assert(entry_at(v, c, a));
        }
        if has_column(v, c) {
            let i = choose|i: int| #[trigger] entry_at(v, c, i);
            let a = if i > at {
                i - 1
            } else {
                i
            };
            assert(entry_at(w, c, a));
        }
    }
    assert forall|c: u32| c != col && has_column(v, c) implies #[trigger] of_column(w, c)
        == of_column(v, c) by {
        let i = choose|i: int| #[trigger] entry_at(v, c, i);
        lemma_of_column(v, c, i);
        let a = if i > at {
            i - 1
        } else {
            i
        };
        assert(entry_at(w, c, a));
        lemma_of_column(w, c, a);
    }
}

// -------------------------------------------------------------------- map --

/// Every comment on one sheet, sparse and keyed by position.
#[derive(Debug)]
pub struct CommentMap {
    by_row: BTreeMap<u32, Vec<(u32, Comment)>>,
    len: usize,
    /// Lookups made so far, counted through shared references.
    probes: AtomicU64,
}

impl View for CommentMap {
    type V = Map<CellRef, CommentView>;

    closed spec fn view(&self) -> Map<CellRef, CommentView> {
        Map::new(
            |c: CellRef|
                self.by_row@.contains_key(c.row) && has_column(self.by_row@[c.row]@, c.col),
            |c: CellRef| of_column(self.by_row@[c.row]@, c.col),
        )
    }
}

/// A comment or none.
pub open spec fn opt_comment(o: Option<Comment>) -> Option<CommentView> {
    match o {
        Some(c) => Some(c@),
        None => None,
    }
}

/// The comment of a cell.
pub open spec fn note(m: Map<CellRef, CommentView>, cell: CellRef) -> Option<CommentView> {
    if m.contains_key(cell) {
        Some(m[cell])
    } else {
        None
    }
}

impl Default for CommentMap {
    fn default() -> (m: CommentMap)
        ensures
            m.wf(),
            m@ == Map::<CellRef, CommentView>::empty(),
    {
        CommentMap::new()
    }
}

impl CommentMap {
    pub closed spec fn wf(self) -> bool {
        &&& forall|r: u32| #[trigger]
            self.by_row@.contains_key(r) ==> in_columns(self.by_row@[r]@) && self.by_row@[r]@.len()
                > 0
        &&& self@.dom().finite()
        &&& self.len == self@.dom().len()
        &&& forall|c: CellRef| #[trigger]
            self@.contains_key(c) ==> self@[c].text.len() <= MAX_COMMENT_CHARS
    }

    /// The comments are finitely many, and their number fits in a `usize`.
    pub proof fn comments_are_counted(self)
        requires
            self.wf(),
        ensures
            self@.dom().finite(),
            self@.dom().len() <= usize::MAX,
    {
    }

    /// No comment is longer than the limit.
    pub proof fn no_comment_is_too_long(self, cell: CellRef)
        requires
            self.wf(),
            self@.contains_key(cell),
        ensures
            self@[cell].text.len() <= MAX_COMMENT_CHARS,
            self@[cell].stored() == self@[cell],
    {
    }

    pub fn new() -> (m: CommentMap)
        ensures
            m.wf(),
            m@ == Map::<CellRef, CommentView>::empty(),
    {
        let m = CommentMap { by_row: BTreeMap::new(), len: 0, probes: AtomicU64::new(0) };
        assert(m@ =~= Map::<CellRef, CommentView>::empty());
        m
    }

    /// Whether the sheet has any comments at all: a plain field read, so that an
    /// uncommented sheet costs nothing.
    pub fn is_empty(&self) -> (b: bool)
        requires
            self.wf(),
        ensures
            b == (self@ == Map::<CellRef, CommentView>::empty()),
    {
        proof {
            if self.len == 0 {
                assert(self@ =~= Map::<CellRef, CommentView>::empty());
            }
        }
        self.len == 0
    }

    pub fn len(&self) -> (n: usize)
        requires
            self.wf(),
        ensures
            n == self@.dom().len(),
    {
        self.len
    }

    /// Lookups made so far. The counter is shared and may move at any time, so
    /// nothing is said of the number.
    pub fn probes(&self) -> u64 {
        self.probes.load(Ordering::Relaxed)
    }

    fn count_probe(&self) {
        self.probes.fetch_add(1, Ordering::Relaxed);
    }

    /// Sets the lookup counter back, so that one frame can be measured alone.
    pub fn reset_probes(&self) {
        self.probes.store(0, Ordering::Relaxed);
    }

    /// How many entries each row has room for, from the first row to the last.
    fn row_capacities(&self, rows: &Vec<u32>) -> (slots: Vec<usize>)
        requires
            self.wf(),
            forall|r: u32| #[trigger] self.by_row@.contains_key(r) <==> rows@.contains(r),
        ensures
            slots@.len() == rows@.len(),
            forall|i: int|
                0 <= i < rows@.len() ==> #[trigger] slots@[i] >= cells_of_row(
                    self@,
                    rows@[i],
                ).len(),
    {
        let mut slots: Vec<usize> = Vec::new();
        let mut i: usize = 0;
        while i < rows.len()
            invariant
                i <= rows@.len(),
                self.wf(),
                forall|r: u32| #[trigger] self.by_row@.contains_key(r) <==> rows@.contains(r),
                slots@.len() == i,
                forall|k: int|
                    0 <= k < i ==> #[trigger] slots@[k] >= cells_of_row(self@, rows@[k]).len(),
            decreases rows@.len() - i,
        {
            let row: u32 = rows[i];
            assert(rows@.contains(row));
            let room: usize = match self.by_row.get(&row) {
                Some(v) => {
                    proof {
                        let cells = Seq::new(v@.len(), |k: int| CellRef { row, col: v@[k].0 });
                        assert(cells.to_set() =~= cells_of_row(self@, row)) by {
                            assert forall|c: CellRef| cells_of_row(
                                self@,
                                row,
                            ).contains(c) implies cells.contains(c) by {
                                let k = choose|k: int| #[trigger] entry_at(v@, c.col, k);
                                assert(cells[k] == c);
                            }
                            assert forall|c: CellRef| cells.contains(
                                c,
                            ) implies cells_of_row(self@, row).contains(c) by {
                                let k = choose|k: int| 0 <= k < cells.len() && cells[k] == c;
                                assert(entry_at(v@, c.col, k));
                            }
                        }
                        assert(cells.no_duplicates());
                        cells.unique_seq_to_set();
                    }
                    capacity_of(v)
                },
                None => 0,
            };
            slots.push(room);
            i = i + 1;
        }
        slots
    }

    /// Approximate heap cost: it grows with the comments and not with the sheet.
    /// What the rows and the strings have to spare counts too.
    pub fn heap_bytes(&self) -> (n: usize)
        requires
            self.wf(),
        ensures
            comments_take(self@, n),
    {
        let rows = self.sorted_rows();
        let slots = self.row_capacities(&rows);
        let all = self.iter();
        let mut strings: Vec<usize> = Vec::new();
        let mut i: usize = 0;
        while i < all.len()
            invariant
                i <= all@.len(),
                strings@.len() == i,
                forall|k: int|
                    0 <= k < all@.len() ==> note(self@, (#[trigger] all@[k]).0) == Some(
                        all@[k].1@,
                    ),
                forall|k: int|
                    0 <= k < i ==> note_takes(self@[all@[k].0], #[trigger] strings@[k]),
            decreases all@.len() - i,
        {
            assert(note(self@, all@[i as int].0) == Some(all@[i as int].1@));
            strings.push(all[i].1.heap_bytes());
            i = i + 1;
        }
        proof {
            let cells = Seq::new(all@.len(), |k: int| all@[k].0);
            assert(cells.to_set() =~= self@.dom()) by {
                assert forall|c: CellRef| self@.dom().contains(c) implies cells.contains(c) by {
                    assert(lists(all@, c));
                    let k = choose|k: int| 0 <= k < all@.len() && (#[trigger] all@[k]).0 == c;
                    assert(cells[k] == c);
                }
                assert forall|c: CellRef| cells.contains(c) implies self@.dom().contains(c) by {
                    let k = choose|k: int| 0 <= k < cells.len() && cells[k] == c;
                    assert(note(self@, all@[k].0) == Some(all@[k].1@));
                }
            }
            assert(rows@.to_set() =~= rows_of(self@)) by {
                assert forall|r: u32| rows@.contains(r) implies rows_of(self@).contains(r) by {
                    assert(self.by_row@.contains_key(r));
                    let v = self.by_row@[r]@;
                    let c = CellRef { row: r, col: v[0].0 };
                    assert(entry_at(v, c.col, 0));
                    assert(self@.dom().contains(c));
                }
            }
            assert(comments_fit(self@, rows@, cells, slots@, strings@));
        }
        comments_bytes(&slots, &strings)
    }

    /// Attach or replace a comment, returning whatever was there before.
    pub fn set(&mut self, cell: CellRef, comment: Comment) -> (prev: Option<Comment>)
        requires
            old(self).wf(),
            old(self)@.contains_key(cell) || old(self)@.dom().len() < usize::MAX,
        ensures
            final(self).wf(),
            final(self)@ == old(self)@.insert(cell, comment@.stored()),
            opt_comment(prev) == note(old(self)@, cell),
    {
        let ghost was = self@;
        let ghost comment_v = comment@.stored();
        let comment = Comment { author: comment.author, text: Comment::clamp(comment.text) };
        let ghost kept = comment;
        let ghost had_row = self.by_row@.contains_key(cell.row);
        let mut row = match self.by_row.remove(&cell.row) {
            Some(v) => v,
            None => Vec::new(),
        };
        let ghost v = row@;
        assert(!had_row ==> v =~= Seq::empty());
        assert(had_row ==> v == old(self).by_row@[cell.row]@);
        let (at, found) = locate(&row, cell.col);
        let prev = if found {
            proof {
                lemma_of_column(v, cell.col, at as int);
            }
            let gone = row.remove(at);
            row.insert(at, (cell.col, comment));
            assert(row@ =~= v.update(at as int, (cell.col, kept)));
            Some(gone.1)
        } else {
            row.insert(at, (cell.col, comment));
            self.len = self.len + 1;
            None
        };
        let ghost w = row@;
        self.by_row.insert(cell.row, row);
        proof {
            lemma_row_set(v, w, at as int, cell.col, kept);
            let rows = self.by_row@;
            let old_rows = old(self).by_row@;
            assert(rows =~= old_rows.insert(cell.row, rows[cell.row]));
            assert(rows[cell.row]@ == w);
            assert(self@ =~= was.insert(cell, comment_v)) by {
                assert forall|c: CellRef| self@.contains_key(c) == was.insert(
                    cell,
                    comment_v,
                ).contains_key(c) by {
                    if c.row == cell.row && c.col != cell.col {
                        assert(has_column(w, c.col) == has_column(v, c.col));
                    }
                }
                assert forall|c: CellRef| self@.contains_key(c) implies self@[c] == was.insert(
                    cell,
                    comment_v,
                )[c] by {
                    if c.row == cell.row && c.col != cell.col {
                        assert(has_column(w, c.col) == has_column(v, c.col));
                        assert(of_column(w, c.col) == of_column(v, c.col));
                    }
                }
            }
            assert(found == was.contains_key(cell));
        }
        prev
    }

    /// Remove a cell's comment, returning it.
    pub fn remove(&mut self, cell: CellRef) -> (prev: Option<Comment>)
        requires
            old(self).wf(),
        ensures
            final(self).wf(),
            final(self)@ == old(self)@.remove(cell),
            opt_comment(prev) == note(old(self)@, cell),
    {
        let ghost was = self@;
        let ghost old_rows = self.by_row@;
        let mut row = match self.by_row.remove(&cell.row) {
            Some(v) => v,
            None => {
                assert(self.by_row@ =~= old_rows);
                assert(self@ =~= was);
                assert(was.remove(cell) =~= was);
                return None;
            },
        };
        let ghost v = row@;
        let (at, found) = locate(&row, cell.col);
        if !found {
            self.by_row.insert(cell.row, row);
            assert(self.by_row@ =~= old_rows);
            assert(self@ =~= was);
            assert(was.remove(cell) =~= was);
            return None;
        }
        proof {
            lemma_of_column(v, cell.col, at as int);
        }
        let gone = row.remove(at);
        let ghost w = row@;
        proof {
            lemma_row_removed(v, w, at as int, cell.col);
        }
        let empty = row.len() == 0;
        if !empty {
            self.by_row.insert(cell.row, row);
        }
        self.len = self.len - 1;
        proof {
            let rows = self.by_row@;
            assert(self@ =~= was.remove(cell)) by {
                assert forall|c: CellRef| self@.contains_key(c) == was.remove(cell).contains_key(
                    c,
                ) by {
                    if c.row == cell.row {
                        if c.col != cell.col {
                            assert(has_column(w, c.col) == has_column(v, c.col));
                        }
                        if empty && has_column(w, c.col) {
                            let i = choose|i: int| #[trigger] entry_at(w, c.col, i);
                        }
                    } else {
                        assert(rows.contains_key(c.row) == old_rows.contains_key(c.row));
                    }
                }
                assert forall|c: CellRef| self@.contains_key(c) implies self@[c] == was.remove(
                    cell,
                )[c] by {
                    if c.row == cell.row && c.col != cell.col {
                        assert(has_column(w, c.col) == has_column(v, c.col));
                        assert(of_column(w, c.col) == of_column(v, c.col));
                    }
                }
            }
            assert forall|r: u32| #[trigger] rows.contains_key(r) implies in_columns(rows[r]@)
                && rows[r]@.len() > 0 by {
                if r != cell.row {
                    assert(old_rows.contains_key(r));
                }
            }
            assert forall|c: CellRef| #[trigger] self@.contains_key(c) implies self@[c].text.len()
                <= MAX_COMMENT_CHARS by {
                assert(was.contains_key(c));
            }
        }
        Some(gone.1)
    }

    /// Restore a previous state exactly: what undoing an edit does.
    pub fn restore(&mut self, cell: CellRef, prev: Option<Comment>)
        requires
            old(self).wf(),
            prev is Some && !old(self)@.contains_key(cell) ==> old(self)@.dom().len() < usize::MAX,
        ensures
            final(self).wf(),
            final(self)@ == match opt_comment(prev) {
                Some(c) => old(self)@.insert(cell, c.stored()),
                None => old(self)@.remove(cell),
            },
    {
        match prev {
            Some(c) => {
                self.set(cell, c);
            },
            None => {
                self.remove(cell);
            },
        }
    }

    /// The comments on one row in column order, or `None` for a row with none.
    pub fn row_comments(&self, row: u32) -> (r: Option<&[(u32, Comment)]>)
        requires
            self.wf(),
        ensures
            match r {
                Some(v) => {
                    &&& in_columns(v@)
                    &&& v@.len() > 0
                    &&& forall|col: u32| #[trigger]
                        has_column(v@, col) <==> self@.contains_key(CellRef { row, col })
                    &&& forall|i: int|
                        0 <= i < v@.len() ==> self@[CellRef { row, col: (#[trigger] v@[i]).0 }]
                            == v@[i].1@
                },
                None => forall|col: u32| !self@.contains_key(#[trigger] at(row, col)),
            },
    {
        if self.len == 0 {
            assert(self@.dom() =~= Set::empty());
            return None;
        }
        self.count_probe();
        match self.by_row.get(&row) {
            Some(v) => {
                proof {
                    assert forall|i: int| 0 <= i < v@.len() implies self@[CellRef {
                        row,
                        col: (#[trigger] v@[i]).0,
                    }] == v@[i].1@ by {
                        assert(entry_at(v@, v@[i].0, i));
                        lemma_of_column(v@, v@[i].0, i);
                    }
                }
                Some(v.as_slice())
            },
            None => None,
        }
    }

    /// One cell's comment.
    pub fn get(&self, cell: CellRef) -> (r: Option<&Comment>)
        requires
            self.wf(),
        ensures
            match r {
                Some(c) => note(self@, cell) == Some(c@),
                None => note(self@, cell) is None,
            },
    {
        if self.len == 0 {
            assert(self@.dom() =~= Set::empty());
            return None;
        }
        self.count_probe();
        match self.by_row.get(&cell.row) {
            Some(v) => {
                let (at, found) = locate(v, cell.col);
                if found {
                    proof {
                        lemma_of_column(v@, cell.col, at as int);
                    }
                    Some(&v[at].1)
                } else {
                    None
                }
            },
            None => None,
        }
    }

    pub fn contains(&self, cell: CellRef) -> (b: bool)
        requires
            self.wf(),
        ensures
            b == self@.contains_key(cell),
    {
        match self.get(cell) {
            Some(_) => true,
            None => false,
        }
    }

    /// The rows that have comments, ascending.
    fn sorted_rows(&self) -> (rows: Vec<u32>)
        ensures
            forall|i: int, j: int| 0 <= i < j < rows@.len() ==> #[trigger] rows@[i]
                < #[trigger] rows@[j],
            forall|r: u32| #[trigger] self.by_row@.contains_key(r) <==> rows@.contains(r),
    {
        let mut rows: Vec<u32> = Vec::new();
        let ghost keys: Seq<u32> = self.by_row.keys().remaining().unref();
        for k in it: self.by_row.keys()
            invariant
                it.seq() == self.by_row.keys().remaining(),
                keys == it.seq().unref(),
                rows@ == keys.subrange(0, it.index() as int),
        {
            rows.push(*k);
            assert(rows@ =~= keys.subrange(0, it.index() + 1));
        }
        proof {
            assert(keys.subrange(0, keys.len() as int) =~= keys);
            lemma_increasing(self.by_row.keys().remaining());
            assert forall|r: u32| #[trigger] self.by_row@.contains_key(r) <==> rows@.contains(
                r,
            ) by {
                assert(keys.to_set().contains(r) <==> self.by_row@.dom().contains(r));
            }
        }
        rows
    }

    /// Every comment, in (row, column) order.
    pub fn iter(&self) -> (out: Vec<(CellRef, &Comment)>)
        requires
            self.wf(),
        ensures
            forall|i: int|
                0 <= i < out@.len() ==> note(self@, (#[trigger] out@[i]).0) == Some(out@[i].1@),
            forall|c: CellRef| self@.contains_key(c) ==> #[trigger] lists(out@, c),
            forall|i: int, j: int|
                0 <= i < j < out@.len() ==> comes_before(
                    (#[trigger] out@[i]).0,
                    (#[trigger] out@[j]).0,
                ),
    {
        let rows = self.sorted_rows();
        let mut out: Vec<(CellRef, &Comment)> = Vec::new();
        let mut i: usize = 0;
        while i < rows.len()
            invariant
                i <= rows@.len(),
                self.wf(),
                forall|i: int, j: int| 0 <= i < j < rows@.len() ==> #[trigger] rows@[i]
                    < #[trigger] rows@[j],
                forall|r: u32| #[trigger] self.by_row@.contains_key(r) <==> rows@.contains(r),
                forall|k: int|
                    0 <= k < out@.len() ==> note(self@, (#[trigger] out@[k]).0) == Some(
                        out@[k].1@,
                    ),
                forall|k: int, l: int|
                    0 <= k < l < out@.len() ==> comes_before(
                        (#[trigger] out@[k]).0,
                        (#[trigger] out@[l]).0,
                    ),
                forall|k: int, l: int|
                    0 <= k < out@.len() && i <= l < rows@.len() ==> (#[trigger] out@[k]).0.row
                        < #[trigger] rows@[l],
                forall|c: CellRef|
                    self@.contains_key(c) && rows@.subrange(0, i as int).contains(c.row)
                        ==> #[trigger] lists(out@, c),
            decreases rows@.len() - i,
        {
            let row: u32 = rows[i];
            assert(rows@.contains(row));
            match self.by_row.get(&row) {
                Some(v) => {
                    let ghost before = out@;
                    let mut j: usize = 0;
                    while j < v.len()
                        invariant
                            j <= v@.len(),
                            i < rows@.len(),
                            row == rows@[i as int],
                            self.wf(),
                            self.by_row@.contains_key(row),
                            self.by_row@[row] == v,
                            in_columns(v@),
                            forall|i: int, j: int| 0 <= i < j < rows@.len() ==> #[trigger] rows@[i]
                                < #[trigger] rows@[j],
                            out@.len() == before.len() + j,
                            forall|k: int| 0 <= k < before.len() ==> out@[k] == before[k],
                            forall|k: int|
                                0 <= k < j ==> (#[trigger] out@[before.len() + k]).0 == (CellRef {
                                    row,
                                    col: v@[k].0,
                                }),
                            forall|k: int|
                                0 <= k < out@.len() ==> note(self@, (#[trigger] out@[k]).0) == Some(
                                    out@[k].1@,
                                ),
                            forall|k: int, l: int|
                                0 <= k < l < out@.len() ==> comes_before(
                                    (#[trigger] out@[k]).0,
                                    (#[trigger] out@[l]).0,
                                ),
                            forall|k: int|
                                0 <= k < before.len() ==> (#[trigger] before[k]).0.row < row,
                        decreases v@.len() - j,
                    {
                        let col: u32 = v[j].0;
                        proof {
                            assert(entry_at(v@, col, j as int));
                            lemma_of_column(v@, col, j as int);
                        }
                        let ghost was = out@;
                        out.push((CellRef::new(row, col), &v[j].1));
                        proof {
                            assert forall|k: int, l: int| 0 <= k < l < out@.len() implies comes_before(
                                (#[trigger] out@[k]).0,
                                (#[trigger] out@[l]).0,
                            ) by {
                                if l < was.len() {
                                    assert(out@[k] == was[k] && out@[l] == was[l]);
                                } else if k >= before.len() {
                                    let z = k - before.len();
                                    assert(out@[before.len() + z].0 == (CellRef {
                                        row,
                                        col: v@[z].0,
                                    }));
                                    assert(v@[z].0 < v@[j as int].0);
                                } else {
                                    assert(before[k].0.row < row);
                                }
                            }
                        }
                        j = j + 1;
                    }
                    proof {
                        let t = rows@.subrange(0, i as int);
                        let u = rows@.subrange(0, i + 1);
                        assert forall|c: CellRef|
                            self@.contains_key(c) && u.contains(c.row) implies #[trigger] lists(
                            out@,
                            c,
                        ) by {
                            if c.row == row {
                                let z = choose|z: int| #[trigger] entry_at(v@, c.col, z);
                                assert(out@[before.len() + z].0 == c);
                            } else {
                                let k = choose|k: int| 0 <= k < u.len() && u[k] == c.row;
                                assert(t[k] == c.row);
                                assert(lists(before, c));
                                let z = choose|z: int|
                                    0 <= z < before.len() && (#[trigger] before[z]).0 == c;
                                assert(out@[z].0 == c);
                            }
                        }
                        assert forall|k: int, l: int|
                            0 <= k < out@.len() && i + 1 <= l < rows@.len() implies (
                        #[trigger] out@[k]).0.row < #[trigger] rows@[l] by {
                            assert(rows@[i as int] < rows@[l]);
                            if k < before.len() {
                                assert(out@[k] == before[k]);
                            } else {
                                let z = k - before.len();
                                assert(out@[before.len() + z].0.row == row);
                            }
                        }
                    }
                },
                None => {},
            }
            i = i + 1;
        }
        proof {
            assert(rows@.subrange(0, rows@.len() as int) =~= rows@);
        }
        out
    }
}

/// A row's comments by their columns.
pub open spec fn row_view(v: Seq<(u32, Comment)>) -> Seq<(u32, CommentView)> {
    Seq::new(v.len(), |i: int| (v[i].0, v[i].1@))
}

fn same_row(a: &Vec<(u32, Comment)>, b: &Vec<(u32, Comment)>) -> (r: bool)
    ensures
        r == (row_view(a@) == row_view(b@)),
{
    if a.len() != b.len() {
        assert(row_view(a@).len() != row_view(b@).len());
        return false;
    }
    let mut i: usize = 0;
    while i < a.len()
        invariant
            i <= a@.len() == b@.len(),
            forall|k: int| 0 <= k < i ==> #[trigger] row_view(a@)[k] == row_view(b@)[k],
        decreases a@.len() - i,
    {
        if a[i].0 != b[i].0 || a[i].1.author != b[i].1.author || a[i].1.text != b[i].1.text {
            assert(row_view(a@)[i as int] != row_view(b@)[i as int]);
            return false;
        }
        assert(row_view(a@)[i as int] == row_view(b@)[i as int]);
        i = i + 1;
    }
    assert(row_view(a@) =~= row_view(b@));
    true
}

impl Clone for CommentMap {
    fn clone(&self) -> (m: CommentMap)
        ensures
            m@ == self@,
            self.wf() ==> m.wf(),
    {
        let m = CommentMap {
            by_row: self.by_row.clone(),
            len: self.len,
            probes: AtomicU64::new(self.probes()),
        };
        assert(m@ =~= self@);
        m
    }
}

impl CommentMap {
    /// The comments of every row.
    pub closed spec fn rows(self) -> Map<u32, Seq<(u32, CommentView)>> {
        self.by_row@.map_values(|v: Vec<(u32, Comment)>| row_view(v@))
    }

    /// Equal rows are equal comments.
    pub proof fn equal_rows_are_equal_comments(a: CommentMap, b: CommentMap)
        requires
            a.wf(),
            b.wf(),
            a.rows() == b.rows(),
        ensures
            a@ == b@,
    {
        assert(a.rows().dom() =~= a.by_row@.dom());
        assert(b.rows().dom() =~= b.by_row@.dom());
        assert forall|c: CellRef| a@.contains_key(c) == b@.contains_key(c) by {
            assert(a.by_row@.contains_key(c.row) == b.by_row@.contains_key(c.row));
            assert(a.rows()[c.row] == b.rows()[c.row]);
            if a.by_row@.contains_key(c.row) {
                lemma_same_columns(a.by_row@[c.row]@, b.by_row@[c.row]@, c.col);
            }
        }
        assert forall|c: CellRef| a@.contains_key(c) implies a@[c] == b@[c] by {
            assert(b@.contains_key(c));
            assert(a.rows()[c.row] == b.rows()[c.row]);
            lemma_same_columns(a.by_row@[c.row]@, b.by_row@[c.row]@, c.col);
        }
        assert(a@ =~= b@);
    }

    /// Maps that hold the same comments compare equal with `==`, whatever was done
    /// to either before.
    pub proof fn equal_comments_are_equal_maps(a: CommentMap, b: CommentMap)
        requires
            a.wf(),
            b.wf(),
            a@ == b@,
        ensures
            a.rows() == b.rows(),
            a.eq_spec(&b),
    {
        assert forall|r: u32|
            #![trigger a.by_row@.contains_key(r)]
            #![trigger b.by_row@.contains_key(r)]
            a.by_row@.contains_key(r) == b.by_row@.contains_key(r) by {
            if a.by_row@.contains_key(r) {
                let v = a.by_row@[r]@;
                assert(entry_at(v, v[0].0, 0));
                assert(a@.contains_key(CellRef { row: r, col: v[0].0 }));
                assert(b@.contains_key(CellRef { row: r, col: v[0].0 }));
            }
            if b.by_row@.contains_key(r) {
                let v = b.by_row@[r]@;
                assert(entry_at(v, v[0].0, 0));
                assert(b@.contains_key(CellRef { row: r, col: v[0].0 }));
                assert(a@.contains_key(CellRef { row: r, col: v[0].0 }));
            }
        }
        assert forall|r: u32| a.by_row@.contains_key(r) implies #[trigger] a.rows()[r]
            == b.rows()[r] by {
            let v = a.by_row@[r]@;
            let w = b.by_row@[r]@;
            assert(b.by_row@.contains_key(r));
            assert forall|col: u32| #[trigger] has_column(v, col) == has_column(w, col) by {
                let c = CellRef { row: r, col };
                assert(a@.contains_key(c) == has_column(a.by_row@[c.row]@, c.col));
                assert(b@.contains_key(c) == has_column(b.by_row@[c.row]@, c.col));
            }
            assert forall|col: u32| #[trigger] has_column(v, col) implies of_column(v, col)
                == of_column(w, col) by {
                let c = CellRef { row: r, col };
                assert(a@.contains_key(c));
                assert(a@[c] == b@[c]);
            }
            lemma_same_entries(v, w);
        }
        assert(a.rows() =~= b.rows());
    }

    /// Undoing gives back a map that compares equal to the one before: `after` is
    /// what setting or removing a comment made of `before`, and `back` what
    /// restoring the comment that was there made of `after`.
    pub proof fn undoing_gives_back_an_equal_map(
        before: CommentMap,
        after: CommentMap,
        back: CommentMap,
        cell: CellRef,
    )
        requires
            before.wf(),
            back.wf(),
            after@ == before@.remove(cell) || exists|c: CommentView|
                after@ == #[trigger] before@.insert(cell, c),
            back@ == match note(before@, cell) {
                Some(prev) => after@.insert(cell, prev.stored()),
                None => after@.remove(cell),
            },
        ensures
            back@ == before@,
            back.eq_spec(&before),
            back@.dom().len() == before@.dom().len(),
    {
        if before@.contains_key(cell) {
            before.no_comment_is_too_long(cell);
        }
        assert(back@ =~= before@);
        CommentMap::equal_comments_are_equal_maps(back, before);
    }
}

/// Two rows with the same comments in the same columns are the same row.
proof fn lemma_same_entries(v: Seq<(u32, Comment)>, w: Seq<(u32, Comment)>)
    requires
        in_columns(v),
        in_columns(w),
        forall|col: u32| #[trigger] has_column(v, col) == has_column(w, col),
        forall|col: u32| #[trigger] has_column(v, col) ==> of_column(v, col) == of_column(w, col),
    ensures
        row_view(v) == row_view(w),
{
    let a = Seq::new(v.len(), |i: int| v[i].0);
    let b = Seq::new(w.len(), |i: int| w[i].0);
    assert forall|col: u32|
        #![trigger a.contains(col)]
        #![trigger b.contains(col)]
        a.contains(col) <==> b.contains(col) by {
        assert(has_column(v, col) == has_column(w, col));
        if a.contains(col) {
            let i = choose|i: int| 0 <= i < a.len() && a[i] == col;
            assert(entry_at(v, col, i));
            let k = choose|k: int| #[trigger] entry_at(w, col, k);
            assert(b[k] == col);
        }
        if b.contains(col) {
            let i = choose|i: int| 0 <= i < b.len() && b[i] == col;
            assert(entry_at(w, col, i));
            let k = choose|k: int| #[trigger] entry_at(v, col, k);
            assert(a[k] == col);
        }
    }
    lemma_same_list(a, b);
    assert(v.len() == a.len() && w.len() == b.len());
    assert forall|i: int| 0 <= i < v.len() implies row_view(v)[i] == row_view(w)[i] by {
        assert(a[i] == b[i]);
        assert(entry_at(v, v[i].0, i) && entry_at(w, v[i].0, i));
        lemma_of_column(v, v[i].0, i);
        lemma_of_column(w, v[i].0, i);
    }
    assert(row_view(v) =~= row_view(w));
}

proof fn lemma_same_columns(v: Seq<(u32, Comment)>, w: Seq<(u32, Comment)>, col: u32)
    requires
        row_view(v) == row_view(w),
        in_columns(v),
        in_columns(w),
    ensures
        has_column(v, col) == has_column(w, col),
        has_column(v, col) ==> of_column(v, col) == of_column(w, col),
{
    assert(v.len() == row_view(v).len() && w.len() == row_view(w).len());
    if has_column(v, col) {
        let i = choose|i: int| #[trigger] entry_at(v, col, i);
        assert(row_view(v)[i] == row_view(w)[i]);
        assert(entry_at(w, col, i));
        lemma_of_column(v, col, i);
        lemma_of_column(w, col, i);
    }
    if has_column(w, col) {
        let i = choose|i: int| #[trigger] entry_at(w, col, i);
        assert(row_view(v)[i] == row_view(w)[i]);
        assert(entry_at(v, col, i));
    }
}

impl PartialEq for CommentMap {
    /// Two maps holding the same comments are equal however often either has been
    /// read.
    fn eq(&self, other: &CommentMap) -> (r: bool) {
        let rows = self.sorted_rows();
        let theirs = other.sorted_rows();
        proof {
            if self.rows() == other.rows() {
                assert(self.by_row@.dom() =~= other.by_row@.dom()) by {
                    assert(self.rows().dom() =~= self.by_row@.dom());
                    assert(other.rows().dom() =~= other.by_row@.dom());
                }
                assert forall|r: u32|
                    #![trigger rows@.contains(r)]
                    #![trigger theirs@.contains(r)]
                    rows@.contains(r) <==> theirs@.contains(r) by {
                    assert(self.by_row@.contains_key(r) == other.by_row@.contains_key(r));
                }
                lemma_same_list(rows@, theirs@);
            }
        }
        if rows.len() != theirs.len() {
            return false;
        }
        let mut i: usize = 0;
        while i < rows.len()
            invariant
                i <= rows@.len() == theirs@.len(),
                forall|r: u32| #[trigger] self.by_row@.contains_key(r) <==> rows@.contains(r),
                forall|r: u32| #[trigger] other.by_row@.contains_key(r) <==> theirs@.contains(r),
                self.rows() == other.rows() ==> rows@ == theirs@,
                forall|k: int| 0 <= k < i ==> #[trigger] rows@[k] == theirs@[k],
                forall|k: int|
                    0 <= k < i ==> self.rows()[#[trigger] rows@[k]] == other.rows()[rows@[k]],
            decreases rows@.len() - i,
        {
            if rows[i] != theirs[i] {
                return false;
            }
            let row: u32 = rows[i];
            assert(rows@.contains(row) && theirs@.contains(row)) by {
                assert(rows@[i as int] == row);
                assert(theirs@[i as int] == row);
            }
            match (self.by_row.get(&row), other.by_row.get(&row)) {
                (Some(a), Some(b)) => {
                    if !same_row(a, b) {
                        assert(self.rows()[row] != other.rows()[row]);
                        return false;
                    }
                },
                _ => {},
            }
            i = i + 1;
        }
        proof {
            assert(rows@ =~= theirs@);
            assert(self.rows() =~= other.rows()) by {
                assert forall|r: u32| self.rows().contains_key(r) == other.rows().contains_key(
                    r,
                ) by {
                    assert(self.by_row@.contains_key(r) == other.by_row@.contains_key(r));
                }
                assert forall|r: u32| self.rows().contains_key(r) implies self.rows()[r]
                    == other.rows()[r] by {
                    assert(self.by_row@.contains_key(r));
                    let k = choose|k: int| 0 <= k < rows@.len() && rows@[k] == r;
                    assert(self.rows()[rows@[k]] == other.rows()[rows@[k]]);
                }
            }
        }
        true
    }
}

impl vstd::std_specs::cmp::PartialEqSpecImpl for CommentMap {
    open spec fn obeys_eq_spec() -> bool {
        true
    }

    open spec fn eq_spec(&self, other: &CommentMap) -> bool {
        self.rows() == other.rows()
    }
}

/// Two ascending lists of the same rows are the same list.
proof fn lemma_same_list(v: Seq<u32>, w: Seq<u32>)
    requires
        forall|i: int, j: int| 0 <= i < j < v.len() ==> #[trigger] v[i] < #[trigger] v[j],
        forall|i: int, j: int| 0 <= i < j < w.len() ==> #[trigger] w[i] < #[trigger] w[j],
        forall|r: u32|
            #![trigger v.contains(r)]
            #![trigger w.contains(r)]
            v.contains(r) <==> w.contains(r),
    ensures
        v == w,
    decreases v.len(),
{
    if v.len() == 0 {
        if w.len() > 0 {
            assert(w.contains(w[0]));
        }
        assert(v =~= w);
    } else {
        assert(v.contains(v.last()));
        assert(w.len() > 0);
        assert(w.contains(w.last()));
        let a = choose|a: int| 0 <= a < v.len() && v[a] == w.last();
        let b = choose|b: int| 0 <= b < w.len() && w[b] == v.last();
        assert(v[a] <= v.last());
        assert(w[b] <= w.last());
        assert(v.last() == w.last());
        let v1 = v.drop_last();
        let w1 = w.drop_last();
        assert forall|r: u32|
            #![trigger v1.contains(r)]
            #![trigger w1.contains(r)]
            v1.contains(r) <==> w1.contains(r) by {
            if v1.contains(r) {
                let i = choose|i: int| 0 <= i < v1.len() && v1[i] == r;
                assert(v[i] < v[v.len() - 1]);
                assert(v.contains(r));
                let k = choose|k: int| 0 <= k < w.len() && w[k] == r;
                assert(w1[k] == r);
            }
            if w1.contains(r) {
                let i = choose|i: int| 0 <= i < w1.len() && w1[i] == r;
                assert(w[i] < w[w.len() - 1]);
                assert(w.contains(r));
                let k = choose|k: int| 0 <= k < v.len() && v[k] == r;
                assert(v1[k] == r);
            }
        }
        lemma_same_list(v1, w1);
        assert(v =~= v1.push(v.last()));
        assert(w =~= w1.push(w.last()));
    }
}

// ------------------------------------------------------------- relocating --

/// The comment at column `from` of the cell's row moves to the cell.
pub open spec fn lands(
    m: Map<CellRef, CommentView>,
    cols: Map<u32, u32>,
    from: u32,
    cell: CellRef,
) -> bool {
    m.contains_key(at(cell.row, from)) && cols.contains_key(from) && cols[from] == cell.col
}

/// Of the comments that move to the cell, that of column `from` is the last.
pub open spec fn lands_last(
    m: Map<CellRef, CommentView>,
    cols: Map<u32, u32>,
    from: u32,
    cell: CellRef,
) -> bool {
    &&& lands(m, cols, from, cell)
    &&& forall|other: u32| #[trigger] lands(m, cols, other, cell) ==> other <= from
}

/// `n` is `m` with every comment in a mapped column moved to the column it maps
/// to: whatever moves replaces what stays, and of two that move to one cell the one
/// from further right is kept.
pub open spec fn relocated(
    m: Map<CellRef, CommentView>,
    cols: Map<u32, u32>,
    n: Map<CellRef, CommentView>,
) -> bool {
    forall|cell: CellRef| #[trigger]
        note(n, cell) == if exists|from: u32| #[trigger] lands(m, cols, from, cell) {
            Some(
                m[at(
                    cell.row,
                    choose|from: u32| #[trigger] lands_last(m, cols, from, cell),
                )],
            )
        } else if cols.contains_key(cell.col) {
            None
        } else {
            note(m, cell)
        }
}

/// Entry `k` of the list of moved comments moves to the cell.
spec fn hits(mv: Seq<(CellRef, Comment)>, cols: Map<u32, u32>, cell: CellRef, k: int) -> bool {
    0 <= k < mv.len() && mv[k].0.row == cell.row && cols[mv[k].0.col] == cell.col
}

/// Where the list of moved comments is written up to entry `i`.
spec fn written(
    mv: Seq<(CellRef, Comment)>,
    cols: Map<u32, u32>,
    i: int,
    base: Map<CellRef, CommentView>,
    n: Map<CellRef, CommentView>,
) -> bool {
    forall|cell: CellRef|
        {
            &&& (forall|k: int| k < i ==> !hits(mv, cols, cell, k)) ==> #[trigger] note(n, cell)
                == note(base, cell)
            &&& forall|k: int|
                #![trigger hits(mv, cols, cell, k)]
                k < i && hits(mv, cols, cell, k) && (forall|l: int|
                    k < l < i ==> !hits(mv, cols, cell, l)) ==> note(n, cell) == Some(mv[k].1@)
        }
}

/// The last entry below `i` that moves to the cell.
proof fn lemma_last_hit(
    mv: Seq<(CellRef, Comment)>,
    cols: Map<u32, u32>,
    cell: CellRef,
    i: int,
    k: int,
) -> (last: int)
    requires
        k < i,
        hits(mv, cols, cell, k),
    ensures
        k <= last < i,
        hits(mv, cols, cell, last),
        forall|l: int| last < l < i ==> !hits(mv, cols, cell, l),
    decreases i - k,
{
    if exists|l: int| k < l < i && hits(mv, cols, cell, l) {
        let l = choose|l: int| k < l < i && hits(mv, cols, cell, l);
        lemma_last_hit(mv, cols, cell, i, l)
    } else {
        k
    }
}

/// `mv` lists the comments of `m` in mapped columns, in row order and from left to
/// right.
spec fn moves(
    m: Map<CellRef, CommentView>,
    cols: Map<u32, u32>,
    mv: Seq<(CellRef, Comment)>,
) -> bool {
    &&& forall|k: int|
        0 <= k < mv.len() ==> m.contains_key((#[trigger] mv[k]).0) && cols.contains_key(mv[k].0.col)
            && mv[k].1@ == m[mv[k].0]
    &&& forall|c: CellRef|
        m.contains_key(c) && cols.contains_key(c.col) ==> #[trigger] moved_at(mv, c)
    &&& forall|k: int, l: int|
        0 <= k < l < mv.len() ==> comes_before((#[trigger] mv[k]).0, (#[trigger] mv[l]).0)
}

spec fn moved_at(mv: Seq<(CellRef, Comment)>, c: CellRef) -> bool {
    exists|k: int| 0 <= k < mv.len() && (#[trigger] mv[k]).0 == c
}

/// Writing out the whole list relocates the comments.
proof fn lemma_relocated(
    m: Map<CellRef, CommentView>,
    cols: Map<u32, u32>,
    mv: Seq<(CellRef, Comment)>,
    base: Map<CellRef, CommentView>,
    n: Map<CellRef, CommentView>,
)
    requires
        moves(m, cols, mv),
        forall|c: CellRef| #[trigger]
            note(base, c) == if cols.contains_key(c.col) {
                None
            } else {
                note(m, c)
            },
        written(mv, cols, mv.len() as int, base, n),
    ensures
        relocated(m, cols, n),
{
    assert forall|cell: CellRef| #[trigger]
        note(n, cell) == if exists|from: u32| #[trigger] lands(m, cols, from, cell) {
            Some(m[at(cell.row, choose|from: u32| #[trigger] lands_last(m, cols, from, cell))])
        } else if cols.contains_key(cell.col) {
            None
        } else {
            note(m, cell)
        } by {
        if exists|from: u32| #[trigger] lands(m, cols, from, cell) {
            let from = choose|from: u32| #[trigger] lands(m, cols, from, cell);
            assert(moved_at(mv, at(cell.row, from)));
            let k = choose|k: int| 0 <= k < mv.len() && (#[trigger] mv[k]).0 == at(cell.row, from);
            assert(hits(mv, cols, cell, k));
            let last = lemma_last_hit(mv, cols, cell, mv.len() as int, k);
            let s = mv[last].0.col;
            assert(mv[last].0 == at(cell.row, s));
            assert(lands(m, cols, s, cell));
            assert forall|other: u32| #[trigger] lands(m, cols, other, cell) implies other <= s by {
                assert(moved_at(mv, at(cell.row, other)));
                let o = choose|o: int|
                    0 <= o < mv.len() && (#[trigger] mv[o]).0 == at(cell.row, other);
                assert(hits(mv, cols, cell, o));
                if o < last {
                    assert(comes_before(mv[o].0, mv[last].0));
                }
            }
            assert(lands_last(m, cols, s, cell));
            let picked = choose|from: u32| #[trigger] lands_last(m, cols, from, cell);
            assert(lands(m, cols, picked, cell));
            assert(picked == s);
            assert(note(n, cell) == Some(mv[last].1@));
        } else {
            assert forall|k: int| k < mv.len() implies !hits(mv, cols, cell, k) by {
                if hits(mv, cols, cell, k) {
                    assert(mv[k].0 == at(cell.row, mv[k].0.col));
                    assert(lands(m, cols, mv[k].0.col, cell));
                }
            }
        }
    }
}

impl CommentMap {
    /// The comments in mapped columns, in row order and from left to right.
    fn collect_moves(&self, map: &HashMap<u32, u32>) -> (mv: Vec<(CellRef, Comment)>)
        requires
            self.wf(),
        ensures
            moves(self@, map@, mv@),
    {
        let all = self.iter();
        let mut mv: Vec<(CellRef, Comment)> = Vec::new();
        let mut i: usize = 0;
        while i < all.len()
            invariant
                i <= all@.len(),
                forall|k: int|
                    0 <= k < all@.len() ==> note(self@, (#[trigger] all@[k]).0) == Some(
                        all@[k].1@,
                    ),
                forall|k: int, l: int|
                    0 <= k < l < all@.len() ==> comes_before(
                        (#[trigger] all@[k]).0,
                        (#[trigger] all@[l]).0,
                    ),
                forall|k: int|
                    0 <= k < mv@.len() ==> self@.contains_key((#[trigger] mv@[k]).0)
                        && map@.contains_key(mv@[k].0.col) && mv@[k].1@ == self@[mv@[k].0],
                forall|k: int, l: int|
                    0 <= k < l < mv@.len() ==> comes_before(
                        (#[trigger] mv@[k]).0,
                        (#[trigger] mv@[l]).0,
                    ),
                forall|k: int, l: int|
                    0 <= k < mv@.len() && i <= l < all@.len() ==> comes_before(
                        (#[trigger] mv@[k]).0,
                        (#[trigger] all@[l]).0,
                    ),
                forall|k: int|
                    0 <= k < i && map@.contains_key((#[trigger] all@[k]).0.col) ==> moved_at(
                        mv@,
                        all@[k].0,
                    ),
            decreases all@.len() - i,
        {
            let cell = all[i].0;
            let ghost before = mv@;
            assert(note(self@, all@[i as int].0) == Some(all@[i as int].1@));
            if map.contains_key(&cell.col) {
                mv.push((cell, all[i].1.clone()));
                assert(mv@[before.len() as int].0 == cell);
            }
            proof {
                assert forall|k: int|
                    0 <= k < i + 1 && map@.contains_key((#[trigger] all@[k]).0.col) implies moved_at(
                    mv@,
                    all@[k].0,
                ) by {
                    if k < i {
                        assert(moved_at(before, all@[k].0));
                        let z = choose|z: int|
                            0 <= z < before.len() && (#[trigger] before[z]).0 == all@[k].0;
                        assert(mv@[z].0 == all@[k].0);
                    }
                }
            }
            i = i + 1;
        }
        proof {
            assert forall|c: CellRef|
                self@.contains_key(c) && map@.contains_key(c.col) implies #[trigger] moved_at(
                mv@,
                c,
            ) by {
                assert(lists(all@, c));
                let k = choose|k: int| 0 <= k < all@.len() && (#[trigger] all@[k]).0 == c;
                assert(moved_at(mv@, all@[k].0));
            }
        }
        mv
    }

    /// Move every comment in a mapped column to the column it maps to.
    ///
    /// Takes the whole permutation at once: every source is vacated before any
    /// destination is written, so that no move clobbers what another one is about
    /// to read. The cost is that of the comments, never of the rows.
    pub fn remap_columns(&mut self, map: &HashMap<u32, u32>)
        requires
            old(self).wf(),
            old(self)@.dom().len() < usize::MAX,
        ensures
            final(self).wf(),
            relocated(old(self)@, map@, final(self)@),
    {
        let ghost m = self@;
        let ghost cols = map@;
        let mv = self.collect_moves(map);
        let n: usize = mv.len();
        let mut i: usize = 0;
        while i < n
            invariant
                i <= n == mv@.len(),
                self.wf(),
                moves(m, cols, mv@),
                m.dom().finite(),
                m.dom().len() < usize::MAX,
                self@.dom().subset_of(m.dom()),
                forall|c: CellRef|
                    #![trigger self@.contains_key(c)]
                    #![trigger m.contains_key(c)]
                    self@.contains_key(c) <==> m.contains_key(c) && forall|k: int|
                        0 <= k < i ==> (#[trigger] mv@[k]).0 != c,
                forall|c: CellRef| #[trigger] self@.contains_key(c) ==> self@[c] == m[c],
            decreases n - i,
        {
            self.remove(mv[i].0);
            i = i + 1;
        }
        let ghost base = self@;
        proof {
            assert forall|c: CellRef| #[trigger]
                note(base, c) == if cols.contains_key(c.col) {
                    None
                } else {
                    note(m, c)
                } by {
                if m.contains_key(c) {
                    if cols.contains_key(c.col) {
                        assert(moved_at(mv@, c));
                    } else {
                        assert forall|k: int| 0 <= k < n implies (#[trigger] mv@[k]).0 != c by {}
                    }
                }
            }
            vstd::set_lib::lemma_len_subset(base.dom(), m.dom());
            lemma_room(m, cols, mv@, base);
            assert(written(mv@, cols, 0, base, self@));
        }
        let mut j: usize = 0;
        while j < n
            invariant
                j <= n == mv@.len(),
                self.wf(),
                moves(m, cols, mv@),
                cols == map@,
                written(mv@, cols, j as int, base, self@),
                forall|c: CellRef| #[trigger]
                    m.contains_key(c) ==> m[c].text.len() <= MAX_COMMENT_CHARS,
                self@.dom().len() <= base.dom().len() + j,
                base.dom().len() + n <= m.dom().len(),
                m.dom().len() < usize::MAX,
            decreases n - j,
        {
            let cell = mv[j].0;
            let ghost before = self@;
            proof {
                assert(mv@[j as int].0 == cell);
                assert(cols.contains_key(cell.col));
            }
            match map.get(&cell.col) {
                Some(col) => {
                    let dest = CellRef::new(cell.row, *col);
                    let comment = mv[j].1.clone();
                    let ghost comment_v = comment@;
                    self.set(dest, comment);
                    proof {
                        assert(comment_v.stored() == comment_v);
                        assert(self@ == before.insert(dest, comment_v));
                        lemma_written_step(
                            mv@,
                            cols,
                            j as int,
                            base,
                            before,
                            self@,
                            dest,
                        );
                    }
                },
                None => {},
            }
            j = j + 1;
        }
        proof {
            lemma_relocated(m, cols, mv@, base, self@);
        }
    }

    /// Rebuild from saved parts. Of two comments for one cell the later counts.
    pub fn from_iter_cells<I: Iterator<Item = (CellRef, Comment)>>(items: I) -> (m: CommentMap)
        requires
            items.obeys_prophetic_iter_laws(),
            items.decrease() is Some,
            items.remaining().len() < usize::MAX,
        ensures
            m.wf(),
            m@ == built(items.remaining()),
    {
        let ghost all = items.remaining();
        let ghost mut done: int = 0;
        let mut items = items;
        let mut m = CommentMap::new();
        assert(all.subrange(0, 0) =~= Seq::empty());
        assert(all.subrange(0, all.len() as int) =~= all);
        loop
            invariant_except_break
                items.obeys_prophetic_iter_laws(),
                items.decrease() is Some,
                0 <= done <= all.len() < usize::MAX,
                items.remaining() == all.subrange(done, all.len() as int),
                m.wf(),
                m@ == built(all.subrange(0, done)),
                m@.dom().len() <= done,
            ensures
                m.wf(),
                m@ == built(all),
            decreases items.decrease()->0,
        {
            match items.next() {
                Some(item) => {
                    proof {
                        let t = all.subrange(0, done + 1);
                        assert(t.drop_last() =~= all.subrange(0, done));
                        assert(t.last() == item);
                        assert(all.subrange(done, all.len() as int).drop_first() =~= all.subrange(
                            done + 1,
                            all.len() as int,
                        ));
                        done = done + 1;
                    }
                    m.set(item.0, item.1);
                },
                None => {
                    assert(all.subrange(0, done) =~= all);
                    break;
                },
            }
        }
        m
    }
}

/// The comments that some saved parts give.
pub open spec fn built(items: Seq<(CellRef, Comment)>) -> Map<CellRef, CommentView>
    decreases items.len(),
{
    if items.len() == 0 {
        Map::empty()
    } else {
        built(items.drop_last()).insert(items.last().0, items.last().1@.stored())
    }
}

/// The comments that stay and those that move are together those there were.
proof fn lemma_room(
    m: Map<CellRef, CommentView>,
    cols: Map<u32, u32>,
    mv: Seq<(CellRef, Comment)>,
    base: Map<CellRef, CommentView>,
)
    requires
        moves(m, cols, mv),
        m.dom().finite(),
        base.dom().finite(),
        forall|c: CellRef| #[trigger]
            note(base, c) == if cols.contains_key(c.col) {
                None
            } else {
                note(m, c)
            },
    ensures
        base.dom().len() + mv.len() <= m.dom().len(),
{
    let cells = Seq::new(mv.len(), |k: int| mv[k].0);
    assert forall|i: int, j: int| 0 <= i < cells.len() && 0 <= j < cells.len() && i != j implies cells[i]
        != cells[j] by {
        if i < j {
            assert(comes_before(mv[i].0, mv[j].0));
        } else {
            assert(comes_before(mv[j].0, mv[i].0));
        }
    }
    cells.unique_seq_to_set();
    let moved = cells.to_set();
    assert forall|c: CellRef| moved.contains(c) implies m.dom().contains(c) && !base.dom().contains(
        c,
    ) by {
        let k = choose|k: int| 0 <= k < cells.len() && cells[k] == c;
        assert(mv[k].0 == c);
        assert(note(base, c) is None);
    }
    assert forall|c: CellRef| base.dom().contains(c) implies m.dom().contains(c) by {
        assert(note(base, c) is Some);
    }
    vstd::set_lib::lemma_set_disjoint_lens(base.dom(), moved);
    vstd::set_lib::lemma_len_subset(base.dom() + moved, m.dom());
}

/// One more entry written.
proof fn lemma_written_step(
    mv: Seq<(CellRef, Comment)>,
    cols: Map<u32, u32>,
    j: int,
    base: Map<CellRef, CommentView>,
    before: Map<CellRef, CommentView>,
    after: Map<CellRef, CommentView>,
    dest: CellRef,
)
    requires
        0 <= j < mv.len(),
        written(mv, cols, j, base, before),
        dest == at(mv[j].0.row, cols[mv[j].0.col]),
        after == before.insert(dest, mv[j].1@),
    ensures
        written(mv, cols, j + 1, base, after),
{
    assert forall|cell: CellRef|
        {
            &&& (forall|k: int| k < j + 1 ==> !hits(mv, cols, cell, k)) ==> #[trigger] note(
                after,
                cell,
            ) == note(base, cell)
            &&& forall|k: int|
                #![trigger hits(mv, cols, cell, k)]
                k < j + 1 && hits(mv, cols, cell, k) && (forall|l: int|
                    k < l < j + 1 ==> !hits(mv, cols, cell, l)) ==> note(after, cell) == Some(
                    mv[k].1@,
                )
        } by {
        assert(hits(mv, cols, cell, j) <==> cell == dest);
        if cell != dest {
            assert(note(after, cell) == note(before, cell));
            assert forall|k: int|
                #![trigger hits(mv, cols, cell, k)]
                k < j + 1 && hits(mv, cols, cell, k) && (forall|l: int|
                    k < l < j + 1 ==> !hits(mv, cols, cell, l)) implies note(after, cell) == Some(
                mv[k].1@,
            ) by {
                assert forall|l: int| k < l < j implies !hits(mv, cols, cell, l) by {
                    assert(!hits(mv, cols, cell, l));
                }
                assert(note(before, cell) == Some(mv[k].1@));
            }
            if forall|k: int| k < j + 1 ==> !hits(mv, cols, cell, k) {
                assert forall|k: int| k < j implies !hits(mv, cols, cell, k) by {
                    assert(!hits(mv, cols, cell, k));
                }
                assert(note(before, cell) == note(base, cell));
            }
        } else {
            assert forall|k: int|
                #![trigger hits(mv, cols, cell, k)]
                k < j + 1 && hits(mv, cols, cell, k) && (forall|l: int|
                    k < l < j + 1 ==> !hits(mv, cols, cell, l)) implies note(after, cell) == Some(
                mv[k].1@,
            ) by {
                if k < j {
                    assert(!hits(mv, cols, cell, j));
                }
            }
        }
    }
}

/// What increasing means for rows.
proof fn lemma_increasing(v: Seq<&u32>)
    requires
        vstd::std_specs::btree::increasing_seq(v),
    ensures
        forall|i: int, j: int| 0 <= i < j < v.len() ==> *(#[trigger] v[i]) < *(#[trigger] v[j]),
{
    assert(vstd::laws_cmp::obeys_cmp::<u32>());
    assert(vstd::laws_cmp::obeys_cmp::<&u32>());
    assert forall|i: int, j: int| 0 <= i < j < v.len() implies *(#[trigger] v[i]) < *(
    #[trigger] v[j]) by {
        assert(OrdSpec::cmp_spec(&v[i], &v[j]) is Less);
    }
}

/// One of the entries is the cell's.
pub open spec fn lists(v: Seq<(CellRef, &Comment)>, cell: CellRef) -> bool {
    exists|i: int| 0 <= i < v.len() && (#[trigger] v[i]).0 == cell
}

/// Row by row, and from left to right in a row.
pub open spec fn comes_before(a: CellRef, b: CellRef) -> bool {
    a.row < b.row || (a.row == b.row && a.col < b.col)
}

pub open spec fn at(row: u32, col: u32) -> CellRef {
    CellRef { row, col }
}

// ------------------------------------------------------------------- laws --

/// Putting back what was there before a comment was set undoes setting it.
pub proof fn restoring_undoes_a_comment(
    m: Map<CellRef, CommentView>,
    cell: CellRef,
    c: CommentView,
)
    requires
        m.contains_key(cell) ==> m[cell].stored() == m[cell],
    ensures
        ({
            let set = m.insert(cell, c.stored());
            let back = match note(m, cell) {
                Some(prev) => set.insert(cell, prev.stored()),
                None => set.remove(cell),
            };
            back == m
        }),
{
    let set = m.insert(cell, c.stored());
    let back = match note(m, cell) {
        Some(prev) => set.insert(cell, prev.stored()),
        None => set.remove(cell),
    };
    assert(back =~= m);
}

/// A permutation of columns loses no comment and makes up none: each ends up in
/// the column that its column maps to.
pub proof fn a_permutation_moves_every_comment(
    m: Map<CellRef, CommentView>,
    cols: Map<u32, u32>,
    n: Map<CellRef, CommentView>,
    cell: CellRef,
)
    requires
        relocated(m, cols, n),
        forall|a: u32, b: u32|
            cols.contains_key(a) && cols.contains_key(b) && #[trigger] cols[a] == #[trigger] cols[b]
                ==> a == b,
        forall|a: u32| #[trigger] cols.contains_key(a) ==> cols.contains_key(cols[a]),
    ensures
        note(
            n,
            if cols.contains_key(cell.col) {
                at(cell.row, cols[cell.col])
            } else {
                cell
            },
        ) == note(m, cell) || !m.contains_key(cell),
{
    if m.contains_key(cell) {
        if cols.contains_key(cell.col) {
            let dest = at(cell.row, cols[cell.col]);
            assert(at(dest.row, cell.col) == cell);
            assert(lands(m, cols, cell.col, dest));
            assert forall|other: u32| #[trigger] lands(m, cols, other, dest) implies other
                <= cell.col by {
                assert(cols[other] == cols[cell.col]);
            }
            assert(lands_last(m, cols, cell.col, dest));
            let picked = choose|from: u32| #[trigger] lands_last(m, cols, from, dest);
            assert(lands(m, cols, picked, dest));
            assert(cols[picked] == cols[cell.col]);
            assert(note(n, dest) == Some(m[cell]));
        } else {
            assert forall|from: u32| !(#[trigger] lands(m, cols, from, cell)) by {
                if lands(m, cols, from, cell) {
                    assert(cols.contains_key(cols[from]));
                }
            }
            assert(note(n, cell) == note(m, cell));
        }
    }
}

/// A comment keeps its author and its first 32000 characters, and nothing of it changes
/// where it is no longer than that.
pub proof fn a_long_comment_keeps_its_beginning(c: CommentView, i: int)
    ensures
        c.stored().author == c.author,
        c.text.len() <= 32000 ==> c.stored().text == c.text,
        c.text.len() > 32000 ==> c.stored().text.len() == 32000,
        0 <= i < c.stored().text.len() ==> c.stored().text[i] == c.text[i],
{
}

} // verus!
