//! Collapsing a per-cell attribute grid into rectangles.
//!
//! Formatting is stored per column or per range, never per cell, so pasting
//! one number format over a 100k-cell region must produce one range entry.

use vstd::prelude::*;
use vstd::std_specs::cmp::PartialEqSpec;

verus! {

/// A rectangle of a grid, both corners included.
#[derive(Clone, Copy, Debug, PartialEq, Eq, Structural)]
pub struct Rect {
    pub first_row: usize,
    pub first_col: usize,
    pub last_row: usize,
    pub last_col: usize,
    /// Index into the grid of a cell carrying this rectangle's value.
    pub key_index: usize,
}

impl Rect {
    pub open spec fn has(self, row: int, col: int) -> bool {
        self.first_row <= row <= self.last_row && self.first_col <= col <= self.last_col
    }

    pub open spec fn area(self) -> int {
        (self.last_row - self.first_row + 1) * (self.last_col - self.first_col + 1)
    }

    /// How many cells the rectangle holds.
    pub fn cells(&self) -> (n: usize)
        requires
            self.first_row <= self.last_row,
            self.first_col <= self.last_col,
            self.area() <= usize::MAX,
        ensures
            n == self.area(),
    {
        proof {
            let h = self.last_row - self.first_row + 1;
            let w = self.last_col - self.first_col + 1;
            assert(h >= 1 && w >= 1 && h * w <= usize::MAX ==> h <= usize::MAX && w <= usize::MAX)
                by (nonlinear_arith);
        }
        (self.last_row - self.first_row + 1) * (self.last_col - self.first_col + 1)
    }
}

/// Where a cell stands in a row-major grid.
pub open spec fn slot(row: int, col: int, cols: int) -> int {
    row * cols + col
}

/// The attribute at a cell, `None` past the end of the grid.
pub open spec fn key_at<K>(keys: Seq<Option<K>>, i: int) -> Option<K> {
    if 0 <= i < keys.len() {
        keys[i]
    } else {
        None
    }
}

/// Whether two cells both carry an attribute and carry the same one.
pub open spec fn same_key<K: PartialEq>(keys: Seq<Option<K>>, i: int, j: int) -> bool {
    match (key_at(keys, i), key_at(keys, j)) {
        (Some(a), Some(b)) => a.eq_spec(&b),
        _ => false,
    }
}

/// Whether one of the first `n` rectangles holds the cell.
pub open spec fn covered(rects: Seq<Rect>, n: int, row: int, col: int) -> bool {
    exists|k: int| 0 <= k < n && (#[trigger] rects[k]).has(row, col)
}

/// Where rectangle `k` lies, given the ones before it: it starts at a cell
/// that carries an attribute, every such cell before it being held by an
/// earlier one, and it holds only cells that carry an attribute and that none
/// of the earlier ones holds.
pub open spec fn placed<K>(
    keys: Seq<Option<K>>,
    rows: int,
    cols: int,
    rects: Seq<Rect>,
    k: int,
) -> bool {
    let r = rects[k];
    let top = r.first_row as int;
    let left = r.first_col as int;
    &&& top <= r.last_row < rows
    &&& left <= r.last_col < cols
    &&& r.key_index == slot(top, left, cols)
    &&& forall|row: int, col: int|
        #![trigger r.has(row, col)]
        r.has(row, col) ==> !covered(rects, k, row, col) && key_at(
            keys,
            slot(row, col, cols),
        ) is Some
    &&& forall|row: int, col: int|
        #![trigger covered(rects, k, row, col)]
        0 <= row && 0 <= col < cols && (row < top || (row == top && col < left)) && key_at(
            keys,
            slot(row, col, cols),
        ) is Some ==> covered(rects, k, row, col)
}

/// How far rectangle `k` reaches: all its cells carry the attribute it started
/// with, and it stops, first to the right and then downwards, only where it
/// must.
pub open spec fn grown<K: PartialEq>(
    keys: Seq<Option<K>>,
    rows: int,
    cols: int,
    rects: Seq<Rect>,
    k: int,
) -> bool {
    let r = rects[k];
    let top = r.first_row as int;
    let left = r.first_col as int;
    &&& forall|row: int, col: int|
        #![trigger r.has(row, col)]
        r.has(row, col) && !(row == top && col == left) ==> same_key(
            keys,
            slot(row, col, cols),
            r.key_index as int,
        )
    &&& r.last_col + 1 < cols ==> blocked(keys, cols, rects, k, top, r.last_col + 1)
    &&& r.last_row + 1 < rows ==> exists|col: int|
        left <= col <= r.last_col && #[trigger] blocked(
            keys,
            cols,
            rects,
            k,
            r.last_row + 1,
            col,
        )
}

/// Whether rectangle `k` cannot take in a cell: an earlier one holds it, or it
/// does not carry the same attribute.
pub open spec fn blocked<K: PartialEq>(
    keys: Seq<Option<K>>,
    cols: int,
    rects: Seq<Rect>,
    k: int,
    row: int,
    col: int,
) -> bool {
    covered(rects, k, row, col) || !same_key(
        keys,
        slot(row, col, cols),
        rects[k].key_index as int,
    )
}

proof fn lemma_slot(row: int, col: int, rows: int, cols: int)
    requires
        0 <= row < rows,
        0 <= col < cols,
    ensures
        0 <= slot(row, col, cols) < rows * cols,
        slot(row, col, cols) / cols == row,
        slot(row, col, cols) % cols == col,
{
    assert(0 <= row * cols + col < rows * cols) by (nonlinear_arith)
        requires
            0 <= row < rows,
            0 <= col < cols,
    ;
    vstd::arithmetic::div_mod::lemma_fundamental_div_mod_converse(
        row * cols + col,
        cols,
        row,
        col,
    );
}

/// Covering only depends on the rectangles counted.
proof fn lemma_covered_push(rects: Seq<Rect>, r: Rect, n: int, row: int, col: int)
    requires
        0 <= n <= rects.len(),
    ensures
        covered(rects.push(r), n, row, col) == covered(rects, n, row, col),
{
    if covered(rects, n, row, col) {
        let k = choose|k: int| 0 <= k < n && (#[trigger] rects[k]).has(row, col);
        assert(rects.push(r)[k].has(row, col));
    }
    if covered(rects.push(r), n, row, col) {
        let k = choose|k: int| 0 <= k < n && (#[trigger] rects.push(r)[k]).has(row, col);
        assert(rects[k].has(row, col));
    }
}

proof fn lemma_placed_push<K>(
    keys: Seq<Option<K>>,
    rows: int,
    cols: int,
    rects: Seq<Rect>,
    r: Rect,
    k: int,
)
    requires
        0 <= k < rects.len(),
        placed(keys, rows, cols, rects, k),
    ensures
        placed(keys, rows, cols, rects.push(r), k),
{
    let more = rects.push(r);
    assert(more[k] == rects[k]);
    assert forall|row: int, col: int| #[trigger]
        covered(more, k, row, col) == covered(rects, k, row, col) by {
        lemma_covered_push(rects, r, k, row, col);
    }
}

proof fn lemma_grown_push<K: PartialEq>(
    keys: Seq<Option<K>>,
    rows: int,
    cols: int,
    rects: Seq<Rect>,
    r: Rect,
    k: int,
)
    requires
        0 <= k < rects.len(),
        grown(keys, rows, cols, rects, k),
    ensures
        grown(keys, rows, cols, rects.push(r), k),
{
    let more = rects.push(r);
    assert(more[k] == rects[k]);
    assert forall|row: int, col: int| #[trigger]
        blocked(keys, cols, more, k, row, col) == blocked(keys, cols, rects, k, row, col) by {
        lemma_covered_push(rects, r, k, row, col);
    }
    let q = rects[k];
    if q.last_row + 1 < rows {
        let col = choose|col: int|
            q.first_col <= col <= q.last_col && #[trigger] blocked(
                keys,
                cols,
                rects,
                k,
                q.last_row + 1,
                col,
            );
        assert(blocked(keys, cols, more, k, q.last_row + 1, col));
    }
}

fn is_same<K: PartialEq>(keys: &[Option<K>], i: usize, j: usize) -> (b: bool)
    ensures
        b ==> key_at(keys@, i as int) is Some && key_at(keys@, j as int) is Some,
        K::obeys_eq_spec() ==> b == same_key(keys@, i as int, j as int),
{
    if i >= keys.len() || j >= keys.len() {
        return false;
    }
    match (&keys[i], &keys[j]) {
        (Some(a), Some(b)) => a == b,
        _ => false,
    }
}

/// The marks say which cells the rectangles hold.
spec fn marks(used: Seq<bool>, rows: int, cols: int, rects: Seq<Rect>) -> bool {
    &&& used.len() == rows * cols
    &&& forall|row: int, col: int|
        #![trigger slot(row, col, cols)]
        0 <= row < rows && 0 <= col < cols ==> used[slot(row, col, cols)] == covered(
            rects,
            rects.len() as int,
            row,
            col,
        )
}

/// Whether the rectangle that starts at `anchor` can take in a cell.
fn is_open<K: PartialEq>(keys: &[Option<K>], used: &Vec<bool>, j: usize, anchor: usize) -> (b: bool)
    requires
        j < used@.len(),
    ensures
        b ==> !used@[j as int] && key_at(keys@, j as int) is Some,
        K::obeys_eq_spec() ==> b == (!used@[j as int] && same_key(keys@, j as int, anchor as int)),
{
    !used[j] && is_same(keys, j, anchor)
}

fn slot_of(row: usize, col: usize, rows: usize, cols: usize) -> (i: usize)
    requires
        row < rows,
        col < cols,
        rows * cols <= usize::MAX,
    ensures
        i == slot(row as int, col as int, cols as int),
        i < rows * cols,
{
    proof {
        lemma_slot(row as int, col as int, rows as int, cols as int);
        assert(0 <= row * cols <= row * cols + col) by (nonlinear_arith);
    }
    row * cols + col
}

/// How far right the rectangle that starts at `(r, c)` reaches.
fn grow_right<K: PartialEq>(
    keys: &[Option<K>],
    used: &Vec<bool>,
    rows: usize,
    cols: usize,
    r: usize,
    c: usize,
) -> (last: usize)
    requires
        r < rows,
        c < cols,
        used@.len() == rows * cols <= usize::MAX,
    ensures
        c <= last < cols,
        forall|col: int|
            c < col <= last ==> {
                let j = #[trigger] slot(r as int, col, cols as int);
                !used@[j] && key_at(keys@, j) is Some && (K::obeys_eq_spec() ==> same_key(
                    keys@,
                    j,
                    slot(r as int, c as int, cols as int),
                ))
            },
        last + 1 < cols && K::obeys_eq_spec() ==> {
            let j = slot(r as int, last + 1, cols as int);
            used@[j] || !same_key(keys@, j, slot(r as int, c as int, cols as int))
        },
{
    let anchor: usize = slot_of(r, c, rows, cols);
    let mut last: usize = c;
    while last < cols - 1
        invariant
            r < rows,
            c <= last < cols,
            used@.len() == rows * cols <= usize::MAX,
            anchor == slot(r as int, c as int, cols as int),
            forall|col: int|
                c < col <= last ==> {
                    let j = #[trigger] slot(r as int, col, cols as int);
                    !used@[j] && key_at(keys@, j) is Some && (K::obeys_eq_spec() ==> same_key(
                        keys@,
                        j,
                        anchor as int,
                    ))
                },
        decreases cols - last,
    {
        let j: usize = slot_of(r, last + 1, rows, cols);
        if !is_open(keys, used, j, anchor) {
            return last;
        }
        last = last + 1;
    }
    last
}

/// Whether row `row` is open from column `c` to column `last`.
fn row_is_open<K: PartialEq>(
    keys: &[Option<K>],
    used: &Vec<bool>,
    rows: usize,
    cols: usize,
    row: usize,
    c: usize,
    last: usize,
    anchor: usize,
) -> (b: bool)
    requires
        row < rows,
        c <= last < cols,
        used@.len() == rows * cols <= usize::MAX,
    ensures
        b ==> forall|col: int|
            c <= col <= last ==> {
                let j = #[trigger] slot(row as int, col, cols as int);
                !used@[j] && key_at(keys@, j) is Some && (K::obeys_eq_spec() ==> same_key(
                    keys@,
                    j,
                    anchor as int,
                ))
            },
        !b && K::obeys_eq_spec() ==> exists|col: int|
            c <= col <= last && {
                let j = #[trigger] slot(row as int, col, cols as int);
                used@[j] || !same_key(keys@, j, anchor as int)
            },
{
    let mut cc: usize = c;
    while cc <= last
        invariant
            row < rows,
            c <= cc <= last + 1,
            last < cols,
            used@.len() == rows * cols <= usize::MAX,
            forall|col: int|
                c <= col < cc ==> {
                    let j = #[trigger] slot(row as int, col, cols as int);
                    !used@[j] && key_at(keys@, j) is Some && (K::obeys_eq_spec() ==> same_key(
                        keys@,
                        j,
                        anchor as int,
                    ))
                },
        decreases last + 1 - cc,
    {
        let j: usize = slot_of(row, cc, rows, cols);
        if !is_open(keys, used, j, anchor) {
            return false;
        }
        cc = cc + 1;
    }
    true
}

/// Marks every cell of `rect`.
fn mark(used: &mut Vec<bool>, rows: usize, cols: usize, rect: Rect)
    requires
        rect.first_row <= rect.last_row < rows,
        rect.first_col <= rect.last_col < cols,
        old(used)@.len() == rows * cols <= usize::MAX,
    ensures
        final(used)@.len() == old(used)@.len(),
        forall|row: int, col: int|
            #![trigger slot(row, col, cols as int)]
            0 <= row < rows && 0 <= col < cols ==> final(used)@[slot(row, col, cols as int)] == (
            rect.has(row, col) || old(used)@[slot(row, col, cols as int)]),
{
    let ghost before = used@;
    let mut rr: usize = rect.first_row;
    while rr <= rect.last_row
        invariant
            rect.first_row <= rr <= rect.last_row + 1,
            rect.last_row < rows,
            rect.first_col <= rect.last_col < cols,
            used@.len() == before.len() == rows * cols <= usize::MAX,
            forall|row: int, col: int|
                #![trigger slot(row, col, cols as int)]
                0 <= row < rows && 0 <= col < cols ==> used@[slot(row, col, cols as int)] == ((
                rect.has(row, col) && row < rr) || before[slot(row, col, cols as int)]),
        decreases rect.last_row + 1 - rr,
    {
        let mut cc: usize = rect.first_col;
        while cc <= rect.last_col
            invariant
                rect.first_row <= rr <= rect.last_row,
                rect.last_row < rows,
                rect.first_col <= cc <= rect.last_col + 1,
                rect.last_col < cols,
                used@.len() == before.len() == rows * cols <= usize::MAX,
                forall|row: int, col: int|
                    #![trigger slot(row, col, cols as int)]
                    0 <= row < rows && 0 <= col < cols ==> used@[slot(row, col, cols as int)] == ((
                    rect.has(row, col) && (row < rr || (row == rr && col < cc))) || before[slot(
                        row,
                        col,
                        cols as int,
                    )]),
            decreases rect.last_col + 1 - cc,
        {
            let j: usize = slot_of(rr, cc, rows, cols);
            let ghost prev = used@;
            used.set(j, true);
            proof {
                assert forall|row: int, col: int|
                    #![trigger slot(row, col, cols as int)]
                    0 <= row < rows && 0 <= col < cols implies used@[slot(row, col, cols as int)]
                    == ((rect.has(row, col) && (row < rr || (row == rr && col < cc + 1)))
                    || before[slot(row, col, cols as int)]) by {
                    lemma_slot(row, col, rows as int, cols as int);
                    lemma_slot(rr as int, cc as int, rows as int, cols as int);
                }
            }
            cc = cc + 1;
        }
        rr = rr + 1;
    }
}

/// What adding one more rectangle keeps true.
proof fn lemma_rect_added<K: PartialEq>(
    keys: Seq<Option<K>>,
    used: Seq<bool>,
    now: Seq<bool>,
    rows: int,
    cols: int,
    rects: Seq<Rect>,
    r: Rect,
)
    requires
        marks(used, rows, cols, rects),
        now.len() == used.len(),
        forall|row: int, col: int|
            #![trigger slot(row, col, cols)]
            0 <= row < rows && 0 <= col < cols ==> now[slot(row, col, cols)] == (r.has(row, col)
                || used[slot(row, col, cols)]),
        forall|k: int| 0 <= k < rects.len() ==> #[trigger] placed(keys, rows, cols, rects, k),
        K::obeys_eq_spec() ==> forall|k: int|
            0 <= k < rects.len() ==> #[trigger] grown(keys, rows, cols, rects, k),
        r.first_row <= r.last_row < rows,
        r.first_col <= r.last_col < cols,
        r.key_index == slot(r.first_row as int, r.first_col as int, cols),
        forall|row: int, col: int|
            #![trigger slot(row, col, cols)]
            r.has(row, col) ==> !used[slot(row, col, cols)] && key_at(
                keys,
                slot(row, col, cols),
            ) is Some && (K::obeys_eq_spec() && !(row == r.first_row && col == r.first_col)
                ==> same_key(keys, slot(row, col, cols), r.key_index as int)),
        forall|row: int, col: int|
            #![trigger slot(row, col, cols)]
            0 <= row && 0 <= col < cols && (row < r.first_row || (row == r.first_row && col
                < r.first_col)) && key_at(keys, slot(row, col, cols)) is Some ==> covered(
                rects,
                rects.len() as int,
                row,
                col,
            ),
        K::obeys_eq_spec() && r.last_col + 1 < cols ==> {
            let j = slot(r.first_row as int, r.last_col + 1, cols);
            used[j] || !same_key(keys, j, r.key_index as int)
        },
        K::obeys_eq_spec() && r.last_row + 1 < rows ==> exists|col: int|
            r.first_col <= col <= r.last_col && {
                let j = #[trigger] slot(r.last_row + 1, col, cols);
                used[j] || !same_key(keys, j, r.key_index as int)
            },
    ensures
        marks(now, rows, cols, rects.push(r)),
        forall|k: int|
            0 <= k < rects.push(r).len() ==> #[trigger] placed(
                keys,
                rows,
                cols,
                rects.push(r),
                k,
            ),
        K::obeys_eq_spec() ==> forall|k: int|
            0 <= k < rects.push(r).len() ==> #[trigger] grown(keys, rows, cols, rects.push(r), k),
        forall|row: int, col: int|
            covered(rects, rects.len() as int, row, col) || r.has(row, col) ==> #[trigger] covered(
                rects.push(r),
                rects.push(r).len() as int,
                row,
                col,
            ),
{
    let n = rects.len() as int;
    let more = rects.push(r);
    assert(more[n] == r);
    assert forall|row: int, col: int| #[trigger]
        covered(more, n + 1, row, col) == (covered(rects, n, row, col) || r.has(row, col)) by {
        lemma_covered_push(rects, r, n, row, col);
        if covered(rects, n, row, col) {
            let k = choose|k: int| 0 <= k < n && (#[trigger] rects[k]).has(row, col);
            assert(more[k].has(row, col));
        }
        if r.has(row, col) {
            assert(more[n].has(row, col));
        }
        if covered(more, n + 1, row, col) {
            let k = choose|k: int| 0 <= k < n + 1 && (#[trigger] more[k]).has(row, col);
            if k < n {
                assert(rects[k].has(row, col));
            }
        }
    }
    assert forall|k: int| 0 <= k < more.len() implies #[trigger] placed(
        keys,
        rows,
        cols,
        more,
        k,
    ) by {
        if k < n {
            lemma_placed_push(keys, rows, cols, rects, r, k);
        } else {
            assert forall|row: int, col: int| #[trigger] r.has(row, col) implies !covered(
                more,
                k,
                row,
                col,
            ) && key_at(keys, slot(row, col, cols)) is Some by {
                lemma_covered_push(rects, r, n, row, col);
                assert(!used[slot(row, col, cols)]);
            }
            assert forall|row: int, col: int|
                #![trigger covered(more, k, row, col)]
                0 <= row && 0 <= col < cols && (row < r.first_row || (row == r.first_row && col
                    < r.first_col)) && key_at(
                    keys,
                    slot(row, col, cols),
                ) is Some implies covered(more, k, row, col) by {
                lemma_covered_push(rects, r, n, row, col);
            }
        }
    }
    if K::obeys_eq_spec() {
        assert forall|k: int| 0 <= k < more.len() implies #[trigger] grown(
            keys,
            rows,
            cols,
            more,
            k,
        ) by {
            if k < n {
                lemma_grown_push(keys, rows, cols, rects, r, k);
            } else {
                assert forall|row: int, col: int|
                    #![trigger r.has(row, col)]
                    r.has(row, col) && !(row == r.first_row && col == r.first_col) implies same_key(
                    keys,
                    slot(row, col, cols),
                    r.key_index as int,
                ) by {
                    assert(!used[slot(row, col, cols)]);
                }
                if r.last_col + 1 < cols {
                    let row = r.first_row as int;
                    let col = r.last_col + 1;
                    lemma_covered_push(rects, r, n, row, col);
                    assert(used[slot(row, col, cols)] == covered(rects, n, row, col));
                }
                if r.last_row + 1 < rows {
                    let row = r.last_row + 1;
                    let col = choose|col: int|
                        r.first_col <= col <= r.last_col && {
                            let j = #[trigger] slot(row, col, cols);
                            used[j] || !same_key(keys, j, r.key_index as int)
                        };
                    lemma_covered_push(rects, r, n, row, col);
                    assert(used[slot(row, col, cols)] == covered(rects, n, row, col));
                    assert(blocked(keys, cols, more, k, row, col));
                }
            }
        }
    }
}

/// Collapse a per-cell attribute grid into rectangles.
///
/// `keys` is row-major. `None` means "no attribute here". The rectangles are
/// disjoint, cover exactly the cells that carry an attribute, and each carries
/// the index of its first cell. Growth is greedy, first to the right and then
/// downwards, so a uniform grid collapses to exactly one rectangle.
pub fn merge_rectangles<K: PartialEq>(keys: &[Option<K>], rows: usize, cols: usize) -> (out: Vec<
    Rect,
>)
    requires
        rows * cols <= usize::MAX,
    ensures
        forall|k: int|
            0 <= k < out@.len() ==> #[trigger] placed(keys@, rows as int, cols as int, out@, k),
        K::obeys_eq_spec() ==> forall|k: int|
            0 <= k < out@.len() ==> #[trigger] grown(keys@, rows as int, cols as int, out@, k),
        forall|row: int, col: int|
            #![trigger slot(row, col, cols as int)]
            0 <= row < rows && 0 <= col < cols ==> (covered(out@, out@.len() as int, row, col)
                <==> key_at(keys@, slot(row, col, cols as int)) is Some),
{
    let mut used: Vec<bool> = vec![false; rows * cols];
    let mut out: Vec<Rect> = Vec::new();
    let mut r: usize = 0;
    proof {
        assert forall|row: int, col: int|
            #![trigger slot(row, col, cols as int)]
            0 <= row < rows && 0 <= col < cols implies !used@[slot(row, col, cols as int)] by {
            lemma_slot(row, col, rows as int, cols as int);
        }
    }
    while r < rows
        invariant
            r <= rows,
            rows * cols <= usize::MAX,
            marks(used@, rows as int, cols as int, out@),
            forall|k: int|
                0 <= k < out@.len() ==> #[trigger] placed(keys@, rows as int, cols as int, out@, k),
            K::obeys_eq_spec() ==> forall|k: int|
                0 <= k < out@.len() ==> #[trigger] grown(keys@, rows as int, cols as int, out@, k),
            forall|row: int, col: int|
                #![trigger slot(row, col, cols as int)]
                0 <= row < r && 0 <= col < cols && key_at(keys@, slot(row, col, cols as int)) is Some
                    ==> covered(out@, out@.len() as int, row, col),
        decreases rows - r,
    {
        let mut c: usize = 0;
        while c < cols
            invariant
                r < rows,
                c <= cols,
                rows * cols <= usize::MAX,
                marks(used@, rows as int, cols as int, out@),
                forall|k: int|
                    0 <= k < out@.len() ==> #[trigger] placed(
                        keys@,
                        rows as int,
                        cols as int,
                        out@,
                        k,
                    ),
                K::obeys_eq_spec() ==> forall|k: int|
                    0 <= k < out@.len() ==> #[trigger] grown(
                        keys@,
                        rows as int,
                        cols as int,
                        out@,
                        k,
                    ),
                forall|row: int, col: int|
                    #![trigger slot(row, col, cols as int)]
                    0 <= row && 0 <= col < cols && (row < r || (row == r && col < c)) && key_at(
                        keys@,
                        slot(row, col, cols as int),
                    ) is Some ==> covered(out@, out@.len() as int, row, col),
            decreases cols - c,
        {
            let i: usize = slot_of(r, c, rows, cols);
            if !used[i] && i < keys.len() && keys[i].is_some() {
                let last_col: usize = grow_right(keys, &used, rows, cols, r, c);
                let last_row: usize = grow_down(keys, &used, rows, cols, r, c, last_col);
                let rect = Rect { first_row: r, first_col: c, last_row, last_col, key_index: i };
                let ghost before = out@;
                let ghost old_used = used@;
                mark(&mut used, rows, cols, rect);
                out.push(rect);
                proof {
                    lemma_rect_added(keys@, old_used, used@, rows as int, cols as int, before, rect);
                    assert(out@ == before.push(rect));
                }
            }
            c = c + 1;
        }
        r = r + 1;
    }
    proof {
        assert forall|row: int, col: int|
            #![trigger slot(row, col, cols as int)]
            0 <= row < rows && 0 <= col < cols && covered(
                out@,
                out@.len() as int,
                row,
                col,
            ) implies key_at(keys@, slot(row, col, cols as int)) is Some by {
            let k = choose|k: int| 0 <= k < out@.len() && (#[trigger] out@[k]).has(row, col);
            assert(placed(keys@, rows as int, cols as int, out@, k));
        }
    }
    out
}

/// How far down the rectangle that starts at `(r, c)` and reaches `last_col`
/// goes.
fn grow_down<K: PartialEq>(
    keys: &[Option<K>],
    used: &Vec<bool>,
    rows: usize,
    cols: usize,
    r: usize,
    c: usize,
    last_col: usize,
) -> (last: usize)
    requires
        r < rows,
        c <= last_col < cols,
        used@.len() == rows * cols <= usize::MAX,
    ensures
        r <= last < rows,
        forall|row: int, col: int|
            r < row <= last && c <= col <= last_col ==> {
                let j = #[trigger] slot(row, col, cols as int);
                !used@[j] && key_at(keys@, j) is Some && (K::obeys_eq_spec() ==> same_key(
                    keys@,
                    j,
                    slot(r as int, c as int, cols as int),
                ))
            },
        last + 1 < rows && K::obeys_eq_spec() ==> exists|col: int|
            c <= col <= last_col && {
                let j = #[trigger] slot(last + 1, col, cols as int);
                used@[j] || !same_key(keys@, j, slot(r as int, c as int, cols as int))
            },
{
    let anchor: usize = slot_of(r, c, rows, cols);
    let mut last: usize = r;
    while last < rows - 1
        invariant
            r <= last < rows,
            c <= last_col < cols,
            used@.len() == rows * cols <= usize::MAX,
            anchor == slot(r as int, c as int, cols as int),
            forall|row: int, col: int|
                r < row <= last && c <= col <= last_col ==> {
                    let j = #[trigger] slot(row, col, cols as int);
                    !used@[j] && key_at(keys@, j) is Some && (K::obeys_eq_spec() ==> same_key(
                        keys@,
                        j,
                        anchor as int,
                    ))
                },
        decreases rows - last,
    {
        if !row_is_open(keys, used, rows, cols, last + 1, c, last_col, anchor) {
            return last;
        }
        last = last + 1;
    }
    last
}

/// No two of the rectangles share a cell.
pub proof fn rectangles_are_disjoint<K>(
    keys: Seq<Option<K>>,
    rows: int,
    cols: int,
    rects: Seq<Rect>,
    a: int,
    b: int,
    row: int,
    col: int,
)
    requires
        forall|k: int| 0 <= k < rects.len() ==> #[trigger] placed(keys, rows, cols, rects, k),
        0 <= a < b < rects.len(),
    ensures
        !(rects[a].has(row, col) && rects[b].has(row, col)),
{
    assert(placed(keys, rows, cols, rects, b));
    if rects[a].has(row, col) && rects[b].has(row, col) {
        assert(covered(rects, b, row, col));
    }
}

/// A grid that carries one attribute throughout collapses to one rectangle
/// that holds all of it.
pub proof fn a_uniform_grid_is_one_rectangle<K: PartialEq>(
    keys: Seq<Option<K>>,
    rows: int,
    cols: int,
    rects: Seq<Rect>,
)
    requires
        0 < rows,
        0 < cols,
        forall|i: int, j: int|
            #![trigger same_key(keys, i, j)]
            0 <= i < rows * cols && 0 <= j < rows * cols ==> same_key(keys, i, j),
        forall|k: int| 0 <= k < rects.len() ==> #[trigger] placed(keys, rows, cols, rects, k),
        forall|k: int| 0 <= k < rects.len() ==> #[trigger] grown(keys, rows, cols, rects, k),
        forall|row: int, col: int|
            #![trigger slot(row, col, cols)]
            0 <= row < rows && 0 <= col < cols ==> (covered(rects, rects.len() as int, row, col)
                <==> key_at(keys, slot(row, col, cols)) is Some),
    ensures
        rects.len() == 1,
        rects[0].first_row == 0 && rects[0].first_col == 0,
        rects[0].last_row == rows - 1 && rects[0].last_col == cols - 1,
{
    lemma_slot(0, 0, rows, cols);
    assert(same_key(keys, slot(0, 0, cols), slot(0, 0, cols)));
    assert(covered(rects, rects.len() as int, 0, 0));
    assert(rects.len() > 0);
    assert(placed(keys, rows, cols, rects, 0));
    assert(grown(keys, rows, cols, rects, 0));
    let r = rects[0];
    let top = r.first_row as int;
    let left = r.first_col as int;
    lemma_slot(top, left, rows, cols);
    assert(!covered(rects, 0, 0, 0));
    assert(top == 0 && left == 0);
    if r.last_col + 1 < cols {
        lemma_slot(top, r.last_col + 1, rows, cols);
        assert(blocked(keys, cols, rects, 0, top, r.last_col + 1));
        assert(same_key(keys, slot(top, r.last_col + 1, cols), r.key_index as int));
    }
    if r.last_row + 1 < rows {
        let col = choose|col: int|
            left <= col <= r.last_col && #[trigger] blocked(
                keys,
                cols,
                rects,
                0,
                r.last_row + 1,
                col,
            );
        lemma_slot(r.last_row + 1, col, rows, cols);
        assert(same_key(keys, slot(r.last_row + 1, col, cols), r.key_index as int));
    }
    if rects.len() > 1 {
        assert(placed(keys, rows, cols, rects, 1));
        let q = rects[1];
        assert(q.has(q.first_row as int, q.first_col as int));
        assert(rects[0].has(q.first_row as int, q.first_col as int));
        assert(covered(rects, 1, q.first_row as int, q.first_col as int));
    }
}

} // verus!
