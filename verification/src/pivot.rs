//! Pivot aggregation: rows grouped by some columns, other columns aggregated per
//! group.
//!
//! Memory grows with the number of distinct groups and never with the rows: one
//! streaming pass folds each row's values into its group's accumulators, which are
//! of fixed size, and the only growth is one entry per newly seen group.
//!
//! The source yields a small [`Cell`]: a number, an interned string or something
//! else. That is all grouping and aggregation need. The arithmetic on numbers comes
//! from the caller, as an [`Arithmetic`].

use crate::index::{latest, mix, mixed, HashIndex, HASH_SEED};
use crate::sorting::{in_order, sorted, Ordered};
use crate::value::{
    all_marked, largest, lemma_units_bound, smallest, the_largest_is_among_them,
    the_smallest_is_among_them, units_of, Ruler, StrId, F64, INF64, NEG_INF64, SIGN64,
};
use vstd::prelude::*;

verus! {

/// A column of the source.
#[derive(Clone, Copy, Debug, PartialEq, Eq, PartialOrd, Ord, Hash, Structural)]
pub struct ColIdx(pub u32);

/// A cell as a pivot sees it. `==` is identity, numbers being compared by their
/// bits; [`Cell::equals`] compares them as numbers.
#[derive(Clone, Copy, Debug, PartialEq, Eq, Structural)]
pub enum Cell {
    /// The only kind that numeric aggregates take in.
    Number(F64),
    Text(StrId),
    /// Anything else. Blanks form a group of their own and add nothing to numeric
    /// aggregates.
    Blank,
}

impl Cell {
    pub open spec fn equals_spec(self, other: Cell) -> bool {
        match (self, other) {
            (Cell::Number(a), Cell::Number(b)) => a.eq_num_spec(b),
            _ => self == other,
        }
    }

    /// Equality in which numbers are compared as numbers.
    pub fn equals(&self, other: &Cell) -> (b: bool)
        ensures
            b == self.equals_spec(*other),
    {
        match (*self, *other) {
            (Cell::Number(a), Cell::Number(b)) => a.num_eq(b),
            (a, b) => a == b,
        }
    }
}

/// The rows being pivoted, column by column. Columns out of range are blank. What
/// a cell holds is a function of where it is.
pub trait PivotSource {
    spec fn rows(&self) -> usize;

    spec fn at(&self, col: ColIdx, row: usize) -> Cell;

    fn row_count(&self) -> (n: usize)
        ensures
            n == self.rows(),
    ;

    fn cell(&self, col: ColIdx, row: usize) -> (c: Cell)
        requires
            row < self.rows(),
        ensures
            c == self.at(col, row),
    ;
}

/// Which aggregate to compute for a value column.
#[derive(Clone, Copy, Debug, PartialEq, Eq, Structural)]
pub enum Agg {
    /// Compensated sum of the numeric cells.
    Sum,
    /// Count of all rows in the group, numeric or not.
    Count,
    /// Mean of the numeric cells.
    Avg,
    Min,
    Max,
    /// Population standard deviation of the numeric cells.
    StdDev,
}

/// The arithmetic that aggregation needs: sum, difference and product of two
/// numbers, a number shared out among so many, a count as a number, a square root.
pub struct Arithmetic<P, M, T, S, N, R> {
    pub plus: P,
    pub minus: M,
    pub times: T,
    pub share: S,
    pub number: N,
    pub root: R,
}

impl<
    P: Fn(F64, F64) -> F64,
    M: Fn(F64, F64) -> F64,
    T: Fn(F64, F64) -> F64,
    S: Fn(F64, u64) -> F64,
    N: Fn(u64) -> F64,
    R: Fn(F64) -> F64,
> Arithmetic<P, M, T, S, N, R> {
    /// The operations can be applied to every number.
    pub open spec fn ready(&self) -> bool {
        &&& forall|x: F64, y: F64| #[trigger] self.plus.requires((x, y))
        &&& forall|x: F64, y: F64| #[trigger] self.minus.requires((x, y))
        &&& forall|x: F64, y: F64| #[trigger] self.times.requires((x, y))
        &&& forall|x: F64, n: u64| #[trigger] self.share.requires((x, n))
        &&& forall|n: u64| #[trigger] self.number.requires((n,))
        &&& forall|x: F64| #[trigger] self.root.requires((x,))
    }

    /// One number more: the moments before and after it, `n` numbers counting it,
    /// and the numbers met on the way.
    pub open spec fn folded(&self, s: Moments, x: F64, n: u64, t: Moments, w: Steps) -> bool {
        &&& self.minus.ensures((x, s.c), w.y)
        &&& self.plus.ensures((s.sum, w.y), t.sum)
        &&& self.minus.ensures((t.sum, s.sum), w.d)
        &&& self.minus.ensures((w.d, w.y), t.c)
        &&& self.minus.ensures((x, s.mean), w.delta)
        &&& self.share.ensures((w.delta, n), w.part)
        &&& self.plus.ensures((s.mean, w.part), t.mean)
        &&& self.minus.ensures((x, t.mean), w.rest)
        &&& self.times.ensures((w.delta, w.rest), w.square)
        &&& self.plus.ensures((s.m2, w.square), t.m2)
    }

    /// `states` are the moments while the numbers `v` go by.
    pub open spec fn traced(&self, v: Seq<F64>, states: Seq<Moments>, ways: Seq<Steps>) -> bool {
        &&& states.len() == v.len() + 1
        &&& ways.len() == v.len()
        &&& states[0] == Moments::zero()
        &&& forall|i: int|
            0 <= i < v.len() ==> self.folded(
                states[i],
                #[trigger] v[i],
                (i + 1) as u64,
                states[i + 1],
                ways[i],
            )
    }

    /// What an aggregate gives for a group's cells, `m` being the moments of their
    /// numbers. Without a number there is no numeric aggregate, which is not zero.
    pub open spec fn outcome(&self, agg: Agg, cells: Seq<Cell>, m: Moments, r: Option<F64>) -> bool {
        let v = numbers_of(cells);
        match agg {
            Agg::Count => r is Some && self.number.ensures((cells.len() as u64,), r->0),
            Agg::Sum => r == if v.len() > 0 {
                Some(m.sum)
            } else {
                None
            },
            Agg::Avg => if v.len() > 0 {
                r is Some && self.share.ensures((m.sum, v.len() as u64), r->0)
            } else {
                r is None
            },
            Agg::Min => r == if v.len() > 0 {
                Some(smallest(v))
            } else {
                None
            },
            Agg::Max => r == if v.len() > 0 {
                Some(largest(v))
            } else {
                None
            },
            Agg::StdDev => if v.len() > 0 {
                r is Some && exists|q: F64| #[trigger]
                    self.share.ensures((m.m2, v.len() as u64), q) && self.root.ensures((q,), r->0)
            } else {
                r is None
            },
        }
    }

    /// `r` is the aggregate of a group's cells.
    pub open spec fn reported(&self, agg: Agg, cells: Seq<Cell>, r: Option<F64>) -> bool {
        exists|states: Seq<Moments>, ways: Seq<Steps>|
            #[trigger] self.traced(numbers_of(cells), states, ways) && self.outcome(
                agg,
                cells,
                states.last(),
                r,
            )
    }
}

/// Running sums of the numbers of a column: the compensated sum and its
/// compensation, the running mean and the squared deviations from it.
#[derive(Clone, Copy, Debug)]
pub struct Moments {
    pub sum: F64,
    pub c: F64,
    pub mean: F64,
    pub m2: F64,
}

impl Moments {
    pub open spec fn zero() -> Moments {
        Moments { sum: F64(0), c: F64(0), mean: F64(0), m2: F64(0) }
    }
}

/// The numbers met on the way from one state of [`Moments`] to the next.
pub ghost struct Steps {
    /// The number without the compensation carried over.
    pub y: F64,
    /// What really reached the sum.
    pub d: F64,
    /// The deviation from the mean so far.
    pub delta: F64,
    pub part: F64,
    /// The deviation from the new mean.
    pub rest: F64,
    pub square: F64,
}

/// The numbers among the cells, in order.
pub open spec fn numbers_of(cells: Seq<Cell>) -> Seq<F64>
    decreases cells.len(),
{
    if cells.len() == 0 {
        Seq::empty()
    } else {
        match cells.last() {
            Cell::Number(x) => numbers_of(cells.drop_last()).push(x),
            _ => numbers_of(cells.drop_last()),
        }
    }
}

// ------------------------------------------------------------------- keys --

/// The values of the group columns in a row.
pub open spec fn key_at<S: PivotSource>(src: S, group_by: Seq<ColIdx>, row: int) -> Seq<Cell> {
    Seq::new(group_by.len(), |i: int| src.at(group_by[i], row as usize))
}

/// Where a key part stands among all: numbers by value, the negative zero behind
/// the other, then what is no number, then text by id, then blanks.
pub open spec fn place(c: Cell) -> int {
    match c {
        Cell::Number(x) => if x.nan_spec() {
            0x1_0000_0000_0000_0000_0000 + x.0
        } else {
            2 * x.rank() + if x.0 >= SIGN64 {
                1int
            } else {
                0
            }
        },
        Cell::Text(id) => 0x2_0000_0000_0000_0000_0000 + id.0,
        Cell::Blank => 0x3_0000_0000_0000_0000_0000,
    }
}

/// Different parts have different places.
pub proof fn places_are_distinct(a: Cell, b: Cell)
    ensures
        place(a) == place(b) ==> a == b,
{
}

fn place_of(c: Cell) -> (n: i128)
    ensures
        n == place(c),
{
    match c {
        Cell::Number(x) => {
            if x.is_nan() {
                0x1_0000_0000_0000_0000_0000 + x.0 as i128
            } else if x.0 >= SIGN64 {
                1 - 2 * ((x.0 - SIGN64) as i128)
            } else {
                2 * (x.0 as i128)
            }
        },
        Cell::Text(id) => 0x2_0000_0000_0000_0000_0000 + id.0 as i128,
        Cell::Blank => 0x3_0000_0000_0000_0000_0000,
    }
}

/// The order of keys: by their first parts that differ, a key before its
/// continuations.
pub open spec fn key_before(a: Seq<Cell>, b: Seq<Cell>) -> bool
    decreases a.len(),
{
    if b.len() == 0 {
        false
    } else if a.len() == 0 {
        true
    } else if a[0] != b[0] {
        place(a[0]) < place(b[0])
    } else {
        key_before(a.subrange(1, a.len() as int), b.subrange(1, b.len() as int))
    }
}

/// The order of keys is strict and total: of two different keys exactly one stands
/// before the other, and standing before is transitive.
pub proof fn key_order_is_total(a: Seq<Cell>, b: Seq<Cell>, c: Seq<Cell>)
    ensures
        !key_before(a, a),
        a != b ==> key_before(a, b) != key_before(b, a),
        key_before(a, b) && key_before(b, c) ==> key_before(a, c),
    decreases a.len() + b.len() + c.len(),
{
    if a.len() > 0 && b.len() > 0 {
        let a1 = a.subrange(1, a.len() as int);
        let b1 = b.subrange(1, b.len() as int);
        if c.len() > 0 {
            key_order_is_total(a1, b1, c.subrange(1, c.len() as int));
            places_are_distinct(a[0], c[0]);
            places_are_distinct(b[0], c[0]);
        } else {
            key_order_is_total(a1, b1, c);
        }
        places_are_distinct(a[0], b[0]);
        if a1 == b1 && a[0] == b[0] {
            assert(a =~= seq![a[0]] + a1);
            assert(b =~= seq![b[0]] + b1);
        }
    } else {
        if a.len() > 0 {
            key_order_is_total(a.subrange(1, a.len() as int), b, c);
        }
        if a.len() == 0 && b.len() == 0 {
            assert(a =~= b);
        }
    }
}

fn is_key_before(a: &Vec<Cell>, b: &Vec<Cell>) -> (r: bool)
    ensures
        r == key_before(a@, b@),
{
    let n: usize = a.len();
    let m: usize = b.len();
    let mut i: usize = 0;
    assert(a@.subrange(0, n as int) =~= a@);
    assert(b@.subrange(0, m as int) =~= b@);
    while i < n && i < m
        invariant
            i <= n == a@.len(),
            i <= m == b@.len(),
            key_before(a@, b@) == key_before(
                a@.subrange(i as int, n as int),
                b@.subrange(i as int, m as int),
            ),
        decreases n - i,
    {
        let ghost s = a@.subrange(i as int, n as int);
        let ghost t = b@.subrange(i as int, m as int);
        if a[i] != b[i] {
            return place_of(a[i]) < place_of(b[i]);
        }
        proof {
            assert(s.subrange(1, s.len() as int) =~= a@.subrange(i + 1, n as int));
            assert(t.subrange(1, t.len() as int) =~= b@.subrange(i + 1, m as int));
        }
        i = i + 1;
    }
    i < m
}

pub open spec fn part_hash(h: u64, c: Cell) -> u64 {
    match c {
        Cell::Number(x) => mixed(mixed(mixed(h, 1), x.0 & 0xffff_ffff), x.0 >> 32),
        Cell::Text(id) => mixed(mixed(h, 2), id.0 as u64),
        Cell::Blank => mixed(h, 3),
    }
}

pub open spec fn key_hash(k: Seq<Cell>) -> u64
    decreases k.len(),
{
    if k.len() == 0 {
        HASH_SEED
    } else {
        part_hash(key_hash(k.drop_last()), k.last())
    }
}

fn hash_part(h: u64, c: Cell) -> (r: u64)
    ensures
        r == part_hash(h, c),
{
    match c {
        Cell::Number(x) => {
            let a: u64 = mix(h, 1);
            let b: u64 = mix(a, x.0 & 0xffff_ffff);
            mix(b, x.0 >> 32)
        },
        Cell::Text(id) => {
            let a: u64 = mix(h, 2);
            mix(a, id.0 as u64)
        },
        Cell::Blank => mix(h, 3),
    }
}

fn hash_key(k: &Vec<Cell>) -> (h: u64)
    ensures
        h == key_hash(k@),
{
    let mut h: u64 = HASH_SEED;
    let n: usize = k.len();
    let mut i: usize = 0;
    while i < n
        invariant
            i <= n == k@.len(),
            h == key_hash(k@.subrange(0, i as int)),
        decreases n - i,
    {
        assert(k@.subrange(0, i + 1).drop_last() =~= k@.subrange(0, i as int));
        h = hash_part(h, k[i]);
        i = i + 1;
    }
    assert(k@.subrange(0, n as int) =~= k@);
    h
}

fn same_key(a: &Vec<Cell>, b: &Vec<Cell>) -> (r: bool)
    ensures
        r == (a@ == b@),
{
    let n: usize = a.len();
    if n != b.len() {
        return false;
    }
    let mut i: usize = 0;
    while i < n
        invariant
            i <= n == a@.len(),
            n == b@.len(),
            forall|k: int| 0 <= k < i ==> a@[k] == b@[k],
        decreases n - i,
    {
        if a[i] != b[i] {
            return false;
        }
        i = i + 1;
    }
    assert(a@ =~= b@);
    true
}

// ----------------------------------------------------------- accumulators --

/// Running accumulator for one value column within one group. Its size does not
/// depend on how many rows fall into the group.
#[derive(Clone, Copy)]
struct ColAcc {
    /// Rows in the group, numeric or not.
    count: u64,
    /// Numeric cells seen.
    numeric: u64,
    moments: Moments,
    min: F64,
    max: F64,
    trace: Ghost<(Seq<Moments>, Seq<Steps>)>,
}

/// One group while the rows go by.
struct Group {
    key: Vec<Cell>,
    accs: Vec<ColAcc>,
}

impl ColAcc {
    /// The accumulator has taken in `cells`.
    spec fn holds<
        P: Fn(F64, F64) -> F64,
        M: Fn(F64, F64) -> F64,
        T: Fn(F64, F64) -> F64,
        S: Fn(F64, u64) -> F64,
        N: Fn(u64) -> F64,
        R: Fn(F64) -> F64,
    >(self, ops: Arithmetic<P, M, T, S, N, R>, cells: Seq<Cell>) -> bool {
        let v = numbers_of(cells);
        &&& self.count == cells.len()
        &&& self.numeric == v.len()
        &&& self.min == smallest(v)
        &&& self.max == largest(v)
        &&& ops.traced(v, self.trace@.0, self.trace@.1)
        &&& self.moments == self.trace@.0.last()
    }

    fn new<
        P: Fn(F64, F64) -> F64,
        M: Fn(F64, F64) -> F64,
        T: Fn(F64, F64) -> F64,
        S: Fn(F64, u64) -> F64,
        N: Fn(u64) -> F64,
        R: Fn(F64) -> F64,
    >(ops: &Arithmetic<P, M, T, S, N, R>) -> (a: ColAcc)
        ensures
            a.holds(*ops, Seq::empty()),
    {
        ColAcc {
            count: 0,
            numeric: 0,
            moments: Moments { sum: F64(0), c: F64(0), mean: F64(0), m2: F64(0) },
            min: F64(INF64),
            max: F64(NEG_INF64),
            trace: Ghost((seq![Moments::zero()], Seq::empty())),
        }
    }

    fn push<
        P: Fn(F64, F64) -> F64,
        M: Fn(F64, F64) -> F64,
        T: Fn(F64, F64) -> F64,
        S: Fn(F64, u64) -> F64,
        N: Fn(u64) -> F64,
        R: Fn(F64) -> F64,
    >(
        &mut self,
        ops: &Arithmetic<P, M, T, S, N, R>,
        cell: Cell,
        Ghost(cells): Ghost<Seq<Cell>>,
    )
        requires
            ops.ready(),
            old(self).holds(*ops, cells),
            cells.len() < u64::MAX,
        ensures
            final(self).holds(*ops, cells.push(cell)),
    {
        proof {
            assert(cells.push(cell).drop_last() =~= cells);
            lemma_fewer_numbers(cells);
        }
        self.count = self.count + 1;
        match cell {
            Cell::Number(x) => {
                let ghost v = numbers_of(cells);
                let ghost after = numbers_of(cells.push(cell));
                proof {
                    assert(after == v.push(x));
                    assert(after.drop_last() =~= v);
                }
                self.numeric = self.numeric + 1;
                if x.less_than(self.min) {
                    self.min = x;
                }
                if self.max.less_than(x) {
                    self.max = x;
                }
                let s = self.moments;
                let y = (ops.minus)(x, s.c);
                let sum = (ops.plus)(s.sum, y);
                let d = (ops.minus)(sum, s.sum);
                let c = (ops.minus)(d, y);
                let delta = (ops.minus)(x, s.mean);
                let part = (ops.share)(delta, self.numeric);
                let mean = (ops.plus)(s.mean, part);
                let rest = (ops.minus)(x, mean);
                let square = (ops.times)(delta, rest);
                let m2 = (ops.plus)(s.m2, square);
                let t = Moments { sum, c, mean, m2 };
                self.moments = t;
                proof {
                    let w = Steps { y, d, delta, part, rest, square };
                    let states = self.trace@.0;
                    let ways = self.trace@.1;
                    assert(ops.folded(s, x, self.numeric, t, w));
                    let more = states.push(t);
                    let further = ways.push(w);
                    assert forall|i: int| 0 <= i < after.len() implies ops.folded(
                        more[i],
                        #[trigger] after[i],
                        (i + 1) as u64,
                        more[i + 1],
                        further[i],
                    ) by {
                        if i < v.len() {
                            assert(v[i] == after[i]);
                        }
                    }
                    self.trace@ = (more, further);
                }
            },
            _ => {},
        }
    }
}

proof fn lemma_fewer_numbers(cells: Seq<Cell>)
    ensures
        numbers_of(cells).len() <= cells.len(),
    decreases cells.len(),
{
    if cells.len() > 0 {
        lemma_fewer_numbers(cells.drop_last());
    }
}

impl ColAcc {
    fn value<
        P: Fn(F64, F64) -> F64,
        M: Fn(F64, F64) -> F64,
        T: Fn(F64, F64) -> F64,
        S: Fn(F64, u64) -> F64,
        N: Fn(u64) -> F64,
        R: Fn(F64) -> F64,
    >(
        &self,
        ops: &Arithmetic<P, M, T, S, N, R>,
        agg: Agg,
        Ghost(cells): Ghost<Seq<Cell>>,
    ) -> (r: Option<F64>)
        requires
            ops.ready(),
            self.holds(*ops, cells),
        ensures
            ops.reported(agg, cells, r),
    {
        let some = self.numeric > 0;
        let r = match agg {
            Agg::Count => Some((ops.number)(self.count)),
            Agg::Sum => if some {
                Some(self.moments.sum)
            } else {
                None
            },
            Agg::Avg => if some {
                Some((ops.share)(self.moments.sum, self.numeric))
            } else {
                None
            },
            Agg::Min => if some {
                Some(self.min)
            } else {
                None
            },
            Agg::Max => if some {
                Some(self.max)
            } else {
                None
            },
            Agg::StdDev => if some {
                let q = (ops.share)(self.moments.m2, self.numeric);
                Some((ops.root)(q))
            } else {
                None
            },
        };
        proof {
            assert(self.numeric as u64 == numbers_of(cells).len() as u64);
            assert(ops.outcome(agg, cells, self.trace@.0.last(), r));
            assert(ops.traced(numbers_of(cells), self.trace@.0, self.trace@.1));
        }
        r
    }
}

// -------------------------------------------------------------- one pass --

/// The distinct keys of the first `k` rows, in the order in which they came.
pub open spec fn first_keys<S: PivotSource>(
    src: S,
    group_by: Seq<ColIdx>,
    k: int,
) -> Seq<Seq<Cell>>
    decreases k,
{
    if k <= 0 {
        Seq::empty()
    } else {
        let before = first_keys(src, group_by, k - 1);
        let key = key_at(src, group_by, k - 1);
        if before.contains(key) {
            before
        } else {
            before.push(key)
        }
    }
}

/// The cells of `col` in those of the first `k` rows that carry `key`.
pub open spec fn cells_in<S: PivotSource>(
    src: S,
    group_by: Seq<ColIdx>,
    key: Seq<Cell>,
    col: ColIdx,
    k: int,
) -> Seq<Cell>
    decreases k,
{
    if k <= 0 {
        Seq::empty()
    } else {
        let before = cells_in(src, group_by, key, col, k - 1);
        if key_at(src, group_by, k - 1) == key {
            before.push(src.at(col, (k - 1) as usize))
        } else {
            before
        }
    }
}

proof fn lemma_cells_in<S: PivotSource>(
    src: S,
    group_by: Seq<ColIdx>,
    key: Seq<Cell>,
    col: ColIdx,
    k: int,
)
    ensures
        cells_in(src, group_by, key, col, k).len() <= if k > 0 {
            k
        } else {
            0
        },
        !first_keys(src, group_by, k).contains(key) ==> cells_in(src, group_by, key, col, k).len()
            == 0,
    decreases k,
{
    if k > 0 {
        lemma_cells_in(src, group_by, key, col, k - 1);
        let before = first_keys(src, group_by, k - 1);
        let last = key_at(src, group_by, k - 1);
        if before.contains(key) {
            let i = choose|i: int| 0 <= i < before.len() && before[i] == key;
            assert(first_keys(src, group_by, k)[i] == key);
        }
        if last == key && !before.contains(key) {
            assert(first_keys(src, group_by, k).last() == key);
        }
    }
}

/// Every key met is that of a row, and every row's key was met, once.
proof fn lemma_first_keys<S: PivotSource>(src: S, group_by: Seq<ColIdx>, k: int)
    ensures
        first_keys(src, group_by, k).no_duplicates(),
        first_keys(src, group_by, k).len() <= if k > 0 {
            k
        } else {
            0
        },
        forall|row: int|
            0 <= row < k ==> first_keys(src, group_by, k).contains(
                #[trigger] key_at(src, group_by, row),
            ),
        forall|i: int|
            0 <= i < first_keys(src, group_by, k).len() ==> occurs(
                src,
                group_by,
                k,
                #[trigger] first_keys(src, group_by, k)[i],
            ),
    decreases k,
{
    if k > 0 {
        lemma_first_keys(src, group_by, k - 1);
        let before = first_keys(src, group_by, k - 1);
        let after = first_keys(src, group_by, k);
        let last = key_at(src, group_by, k - 1);
        assert forall|i: int, j: int|
            0 <= i < after.len() && 0 <= j < after.len() && i != j implies after[i] != after[j] by {
            if i < before.len() {
                assert(before.contains(before[i]));
            }
            if j < before.len() {
                assert(before.contains(before[j]));
            }
        }
        assert forall|row: int| 0 <= row < k implies after.contains(
            #[trigger] key_at(src, group_by, row),
        ) by {
            let key = key_at(src, group_by, row);
            if row < k - 1 {
                assert(before.contains(key));
                let i = choose|i: int| 0 <= i < before.len() && before[i] == key;
                assert(after[i] == key);
            } else if !before.contains(key) {
                assert(after.last() == key);
            } else {
                assert(after == before);
            }
        }
        assert forall|i: int| 0 <= i < after.len() implies occurs(
            src,
            group_by,
            k,
            #[trigger] after[i],
        ) by {
            if i < before.len() {
                assert(occurs(src, group_by, k - 1, before[i]));
                let row = choose|row: int|
                    0 <= row < k - 1 && #[trigger] key_at(src, group_by, row) == before[i];
                assert(key_at(src, group_by, row) == after[i]);
            } else {
                assert(key_at(src, group_by, k - 1) == after[i]);
            }
        }
    }
}

/// One of the first `k` rows carries `key`.
pub open spec fn occurs<S: PivotSource>(
    src: S,
    group_by: Seq<ColIdx>,
    k: int,
    key: Seq<Cell>,
) -> bool {
    exists|row: int| 0 <= row < k && #[trigger] key_at(src, group_by, row) == key
}

/// The groups and their accumulators after the first `k` rows.
spec fn gathered<
    Src: PivotSource,
    P: Fn(F64, F64) -> F64,
    M: Fn(F64, F64) -> F64,
    T: Fn(F64, F64) -> F64,
    S: Fn(F64, u64) -> F64,
    N: Fn(u64) -> F64,
    R: Fn(F64) -> F64,
>(
    src: Src,
    group_by: Seq<ColIdx>,
    cols: Seq<ColIdx>,
    ops: Arithmetic<P, M, T, S, N, R>,
    groups: Seq<Group>,
    k: int,
) -> bool {
    let keys = first_keys(src, group_by, k);
    &&& groups.len() == keys.len()
    &&& forall|g: int| 0 <= g < groups.len() ==> (#[trigger] groups[g]).key@ == keys[g]
    &&& forall|g: int| 0 <= g < groups.len() ==> (#[trigger] groups[g]).accs@.len() == cols.len()
    &&& forall|g: int, s: int|
        0 <= g < groups.len() && 0 <= s < cols.len() ==> (#[trigger] groups[g].accs@[s]).holds(
            ops,
            cells_in(src, group_by, groups[g].key@, cols[s], k),
        )
}

/// Which of the groups carries `key`.
fn find_group(groups: &Vec<Group>, index: &HashIndex, key: &Vec<Cell>) -> (at: Option<usize>)
    requires
        index.wf(),
        index@.len() == groups@.len(),
        forall|i: int| 0 <= i < groups@.len() ==> #[trigger] index@[i] == key_hash(groups@[i].key@),
    ensures
        match at {
            Some(i) => i < groups@.len() && groups@[i as int].key@ == key@,
            None => forall|i: int| 0 <= i < groups@.len() ==> (#[trigger] groups@[i]).key@ != key@,
        },
{
    let h: u64 = hash_key(key);
    let mut at = index.newest(h);
    let ghost mut end: int = groups@.len() as int;
    loop
        invariant
            index.wf(),
            index@.len() == groups@.len(),
            forall|i: int|
                0 <= i < groups@.len() ==> #[trigger] index@[i] == key_hash(groups@[i].key@),
            h == key_hash(key@),
            0 <= end <= groups@.len(),
            latest(index@, h, end, at),
            forall|k: int| end <= k < groups@.len() ==> (#[trigger] groups@[k]).key@ != key@,
        decreases end,
    {
        match at {
            Some(i) => {
                if same_key(&groups[i].key, key) {
                    return Some(i);
                }
                proof {
                    assert forall|k: int| i <= k < groups@.len() implies (#[trigger] groups@[k]).key@
                        != key@ by {
                        if i < k < end {
                            assert(index@[k] != h);
                        }
                    }
                    assert(index@[i as int] == h);
                    end = i as int;
                }
                at = index.older(i);
            },
            None => {
                assert forall|k: int| 0 <= k < groups@.len() implies (#[trigger] groups@[k]).key@
                    != key@ by {
                    if k < end {
                        assert(index@[k] != h);
                    }
                }
                return None;
            },
        }
    }
}

fn read_key<Src: PivotSource>(src: &Src, group_by: &Vec<ColIdx>, row: usize) -> (key: Vec<Cell>)
    requires
        row < src.rows(),
    ensures
        key@ == key_at(*src, group_by@, row as int),
{
    let n: usize = group_by.len();
    let mut key: Vec<Cell> = Vec::with_capacity(n);
    let mut i: usize = 0;
    while i < n
        invariant
            row < src.rows(),
            i <= n == group_by@.len(),
            key@.len() == i,
            forall|j: int| 0 <= j < i ==> key@[j] == src.at(group_by@[j], row),
        decreases n - i,
    {
        key.push(src.cell(group_by[i], row));
        i = i + 1;
    }
    assert(key@ =~= key_at(*src, group_by@, row as int));
    key
}

fn fresh_accs<
    P: Fn(F64, F64) -> F64,
    M: Fn(F64, F64) -> F64,
    T: Fn(F64, F64) -> F64,
    S: Fn(F64, u64) -> F64,
    N: Fn(u64) -> F64,
    R: Fn(F64) -> F64,
>(ops: &Arithmetic<P, M, T, S, N, R>, n: usize) -> (accs: Vec<ColAcc>)
    ensures
        accs@.len() == n,
        forall|s: int| 0 <= s < n ==> (#[trigger] accs@[s]).holds(*ops, Seq::empty()),
{
    let mut accs: Vec<ColAcc> = Vec::with_capacity(n);
    let mut i: usize = 0;
    while i < n
        invariant
            i <= n,
            accs@.len() == i,
            forall|s: int| 0 <= s < i ==> (#[trigger] accs@[s]).holds(*ops, Seq::empty()),
        decreases n - i,
    {
        accs.push(ColAcc::new(ops));
        i = i + 1;
    }
    accs
}

/// Fold one row's values into its group's accumulators.
fn fold_row<
    Src: PivotSource,
    P: Fn(F64, F64) -> F64,
    M: Fn(F64, F64) -> F64,
    T: Fn(F64, F64) -> F64,
    S: Fn(F64, u64) -> F64,
    N: Fn(u64) -> F64,
    R: Fn(F64) -> F64,
>(
    accs: &mut Vec<ColAcc>,
    src: &Src,
    cols: &Vec<ColIdx>,
    ops: &Arithmetic<P, M, T, S, N, R>,
    row: usize,
    Ghost(cells): Ghost<Seq<Seq<Cell>>>,
)
    requires
        ops.ready(),
        row < src.rows(),
        row < usize::MAX,
        old(accs)@.len() == cols@.len(),
        cells.len() == cols@.len(),
        forall|s: int| 0 <= s < cols@.len() ==> (#[trigger] cells[s]).len() <= row,
        forall|s: int|
            0 <= s < cols@.len() ==> (#[trigger] old(accs)@[s]).holds(*ops, cells[s]),
    ensures
        final(accs)@.len() == cols@.len(),
        forall|s: int|
            0 <= s < cols@.len() ==> (#[trigger] final(accs)@[s]).holds(
                *ops,
                cells[s].push(src.at(cols@[s], row)),
            ),
{
    let n: usize = cols.len();
    let mut i: usize = 0;
    while i < n
        invariant
            ops.ready(),
            row < src.rows(),
            row < usize::MAX,
            i <= n == cols@.len(),
            accs@.len() == n,
            cells.len() == n,
            forall|s: int| 0 <= s < n ==> (#[trigger] cells[s]).len() <= row,
            forall|s: int|
                0 <= s < i ==> (#[trigger] accs@[s]).holds(
                    *ops,
                    cells[s].push(src.at(cols@[s], row)),
                ),
            forall|s: int| i <= s < n ==> (#[trigger] accs@[s]).holds(*ops, cells[s]),
        decreases n - i,
    {
        let cell = src.cell(cols[i], row);
        let mut acc = accs[i];
        assert(accs@[i as int].holds(*ops, cells[i as int]));
        acc.push(ops, cell, Ghost(cells[i as int]));
        accs.set(i, acc);
        i = i + 1;
    }
}

/// The single pass: every group with its accumulators, in the order in which the
/// groups came.
fn gather<
    Src: PivotSource,
    P: Fn(F64, F64) -> F64,
    M: Fn(F64, F64) -> F64,
    T: Fn(F64, F64) -> F64,
    S: Fn(F64, u64) -> F64,
    N: Fn(u64) -> F64,
    R: Fn(F64) -> F64,
>(
    src: &Src,
    group_by: &Vec<ColIdx>,
    cols: &Vec<ColIdx>,
    ops: &Arithmetic<P, M, T, S, N, R>,
) -> (groups: Vec<Group>)
    requires
        ops.ready(),
    ensures
        gathered(*src, group_by@, cols@, *ops, groups@, src.rows() as int),
{
    let rows: usize = src.row_count();
    let mut groups: Vec<Group> = Vec::new();
    let mut index = HashIndex::new();
    let mut row: usize = 0;
    while row < rows
        invariant
            ops.ready(),
            rows == src.rows(),
            row <= rows,
            index.wf(),
            index@.len() == groups@.len(),
            forall|i: int|
                0 <= i < groups@.len() ==> #[trigger] index@[i] == key_hash(groups@[i].key@),
            gathered(*src, group_by@, cols@, *ops, groups@, row as int),
        decreases rows - row,
    {
        let key = read_key(src, group_by, row);
        let ghost k = key@;
        let ghost keys = first_keys(*src, group_by@, row as int);
        proof {
            assert forall|s: int| 0 <= s < cols@.len() implies cells_in(
                *src,
                group_by@,
                k,
                #[trigger] cols@[s],
                row as int,
            ).len() <= row by {
                lemma_cells_in(*src, group_by@, k, cols@[s], row as int);
            }
        }
        let at: usize = match find_group(&groups, &index, &key) {
            Some(g) => {
                proof {
                    assert(keys[g as int] == k);
                    assert(keys.contains(k));
                }
                g
            },
            None => {
                let g: usize = groups.len();
                let h: u64 = hash_key(&key);
                let accs = fresh_accs(ops, cols.len());
                proof {
                    assert(!keys.contains(k)) by {
                        if keys.contains(k) {
                            let i = choose|i: int| 0 <= i < keys.len() && keys[i] == k;
                            assert(groups@[i].key@ == keys[i]);
                        }
                    }
                    assert forall|s: int| 0 <= s < cols@.len() implies (#[trigger] accs@[s]).holds(
                        *ops,
                        cells_in(*src, group_by@, k, cols@[s], row as int),
                    ) by {
                        lemma_cells_in(*src, group_by@, k, cols@[s], row as int);
                        assert(cells_in(*src, group_by@, k, cols@[s], row as int) =~= Seq::empty());
                    }
                }
                groups.push(Group { key, accs });
                index.push(h);
                g
            },
        };
        let ghost mid = groups@;
        let ghost cells: Seq<Seq<Cell>> = Seq::new(
            cols@.len(),
            |s: int| cells_in(*src, group_by@, k, cols@[s], row as int),
        );
        proof {
            assert(mid[at as int].key@ == k);
            assert forall|s: int| 0 <= s < cols@.len() implies (#[trigger] mid[at as int].accs@[s]).holds(
                *ops,
                cells[s],
            ) by {}
        }
        fold_row(&mut groups[at].accs, src, cols, ops, row, Ghost(cells));
        proof {
            let after = first_keys(*src, group_by@, row + 1);
            assert(after.len() == groups@.len());
            assert forall|g: int| 0 <= g < groups@.len() implies (#[trigger] groups@[g]).key@
                == after[g] by {
                assert(groups@[g].key@ == mid[g].key@);
            }
            assert forall|g: int, s: int|
                0 <= g < groups@.len() && 0 <= s < cols@.len() implies (
            #[trigger] groups@[g].accs@[s]).holds(
                *ops,
                cells_in(*src, group_by@, groups@[g].key@, cols@[s], row + 1),
            ) by {
                lemma_first_keys(*src, group_by@, row + 1);
                if g != at {
                    assert(groups@[g] == mid[g]);
                    assert(after[g] != after[at as int]);
                    assert(mid[g].accs@[s].holds(
                        *ops,
                        cells_in(*src, group_by@, mid[g].key@, cols@[s], row as int),
                    ));
                }
            }
        }
        row = row + 1;
    }
    groups
}

// ----------------------------------------------------------------- result --

/// A group in the output.
#[derive(Debug, PartialEq, Clone)]
pub struct PivotGroup {
    /// The group-column values that define this group.
    pub key: Vec<Cell>,
    /// One result per requested aggregate, in order. `None` is no numeric data,
    /// which is not zero.
    pub aggregates: Vec<Option<F64>>,
}

/// The result of a pivot: one [`PivotGroup`] per distinct key, sorted by key.
#[derive(Debug, PartialEq, Clone)]
pub struct PivotResult {
    pub groups: Vec<PivotGroup>,
    /// The accumulator sets that the pass held at its peak.
    pub accumulators: usize,
}

impl Ordered for Group {
    closed spec fn precedes(self, other: Group) -> bool {
        key_before(self.key@, other.key@)
    }

    proof fn asymmetric(a: Group, b: Group) {
        key_order_is_total(a.key@, b.key@, a.key@);
    }

    proof fn transitive(a: Group, b: Group, c: Group) {
        key_order_is_total(a.key@, b.key@, c.key@);
        key_order_is_total(c.key@, a.key@, b.key@);
        key_order_is_total(c.key@, b.key@, a.key@);
        key_order_is_total(b.key@, c.key@, a.key@);
        key_order_is_total(b.key@, a.key@, c.key@);
        key_order_is_total(a.key@, c.key@, b.key@);
    }

    fn is_before(&self, other: &Group) -> (b: bool) {
        is_key_before(&self.key, &other.key)
    }
}

pub open spec fn keys_equal(a: Seq<Cell>, b: Seq<Cell>) -> bool {
    a.len() == b.len() && forall|i: int| 0 <= i < a.len() ==> (#[trigger] a[i]).equals_spec(b[i])
}

fn are_keys_equal(a: &Vec<Cell>, b: &[Cell]) -> (r: bool)
    ensures
        r == keys_equal(a@, b@),
{
    let n: usize = a.len();
    if n != b.len() {
        return false;
    }
    let mut i: usize = 0;
    while i < n
        invariant
            i <= n == a@.len(),
            n == b@.len(),
            forall|k: int| 0 <= k < i ==> (#[trigger] a@[k]).equals_spec(b@[k]),
        decreases n - i,
    {
        if !a[i].equals(&b[i]) {
            return false;
        }
        i = i + 1;
    }
    true
}

impl Default for PivotResult {
    fn default() -> (r: PivotResult)
        ensures
            r.groups@ == Seq::<PivotGroup>::empty(),
            r.accumulators == 0,
    {
        PivotResult { groups: Vec::new(), accumulators: 0 }
    }
}

impl PivotResult {
    /// Number of accumulators that the pass held at its peak, which is the number of
    /// distinct groups.
    pub fn accumulator_count(&self) -> (n: usize)
        ensures
            n == self.accumulators,
    {
        self.accumulators
    }

    /// The first group whose key equals `key`.
    pub fn group(&self, key: &[Cell]) -> (r: Option<&PivotGroup>)
        ensures
            match r {
                Some(g) => exists|i: int|
                    {
                        &&& 0 <= i < self.groups@.len()
                        &&& #[trigger] self.groups@[i] == *g
                        &&& keys_equal(g.key@, key@)
                        &&& forall|k: int|
                            0 <= k < i ==> !keys_equal((#[trigger] self.groups@[k]).key@, key@)
                    },
                None => forall|k: int|
                    0 <= k < self.groups@.len() ==> !keys_equal(
                        (#[trigger] self.groups@[k]).key@,
                        key@,
                    ),
            },
    {
        let n: usize = self.groups.len();
        let mut i: usize = 0;
        while i < n
            invariant
                i <= n == self.groups@.len(),
                forall|k: int| 0 <= k < i ==> !keys_equal((#[trigger] self.groups@[k]).key@, key@),
            decreases n - i,
        {
            if are_keys_equal(&self.groups[i].key, key) {
                return Some(&self.groups[i]);
            }
            i = i + 1;
        }
        None
    }
}

/// The groups of a pivot: one for each distinct key, in the order of the keys, each
/// with the aggregates of the rows that carry its key.
pub open spec fn pivoted<
    Src: PivotSource,
    P: Fn(F64, F64) -> F64,
    M: Fn(F64, F64) -> F64,
    T: Fn(F64, F64) -> F64,
    S: Fn(F64, u64) -> F64,
    N: Fn(u64) -> F64,
    R: Fn(F64) -> F64,
>(
    src: Src,
    group_by: Seq<ColIdx>,
    values: Seq<(ColIdx, Agg)>,
    ops: Arithmetic<P, M, T, S, N, R>,
    groups: Seq<PivotGroup>,
) -> bool {
    &&& forall|i: int, j: int|
        0 <= i < j < groups.len() ==> key_before(
            (#[trigger] groups[i]).key@,
            (#[trigger] groups[j]).key@,
        )
    &&& forall|row: int|
        0 <= row < src.rows() ==> has_group(groups, #[trigger] key_at(src, group_by, row))
    &&& forall|g: int|
        0 <= g < groups.len() ==> occurs(
            src,
            group_by,
            src.rows() as int,
            (#[trigger] groups[g]).key@,
        )
    &&& forall|g: int|
        0 <= g < groups.len() ==> (#[trigger] groups[g]).aggregates@.len() == values.len()
    &&& forall|g: int, i: int|
        0 <= g < groups.len() && 0 <= i < values.len() ==> ops.reported(
            values[i].1,
            cells_in(src, group_by, groups[g].key@, values[i].0, src.rows() as int),
            #[trigger] groups[g].aggregates@[i],
        )
}

pub open spec fn has_group(groups: Seq<PivotGroup>, key: Seq<Cell>) -> bool {
    exists|g: int| 0 <= g < groups.len() && (#[trigger] groups[g]).key@ == key
}

fn position(cols: &Vec<ColIdx>, col: ColIdx) -> (at: Option<usize>)
    ensures
        match at {
            Some(i) => i < cols@.len() && cols@[i as int] == col,
            None => !cols@.contains(col),
        },
{
    let n: usize = cols.len();
    let mut i: usize = 0;
    while i < n
        invariant
            i <= n == cols@.len(),
            forall|k: int| 0 <= k < i ==> cols@[k] != col,
        decreases n - i,
    {
        if cols[i] == col {
            return Some(i);
        }
        i = i + 1;
    }
    None
}

/// The distinct value columns, and for each request which of them it reads. Asking
/// for two aggregates of a column reads the column once.
fn slots(values: &Vec<(ColIdx, Agg)>) -> (r: (Vec<ColIdx>, Vec<usize>))
    ensures
        r.1@.len() == values@.len(),
        forall|i: int|
            0 <= i < values@.len() ==> (#[trigger] r.1@[i]) < r.0@.len() && r.0@[r.1@[i] as int]
                == values@[i].0,
{
    let mut cols: Vec<ColIdx> = Vec::new();
    let mut slot_of: Vec<usize> = Vec::new();
    let n: usize = values.len();
    let mut i: usize = 0;
    while i < n
        invariant
            i <= n == values@.len(),
            slot_of@.len() == i,
            forall|k: int|
                0 <= k < i ==> (#[trigger] slot_of@[k]) < cols@.len() && cols@[slot_of@[k] as int]
                    == values@[k].0,
        decreases n - i,
    {
        let col = values[i].0;
        match position(&cols, col) {
            Some(s) => {
                slot_of.push(s);
            },
            None => {
                slot_of.push(cols.len());
                cols.push(col);
            },
        }
        i = i + 1;
    }
    (cols, slot_of)
}

/// Groups in any order become groups in the order of their keys.
proof fn lemma_sorted(before: Seq<Group>, after: Seq<Group>)
    requires
        in_order(after),
        after.to_multiset() == before.to_multiset(),
        forall|i: int, j: int|
            0 <= i < before.len() && 0 <= j < before.len() && i != j ==> (#[trigger] before[i]).key@
                != (#[trigger] before[j]).key@,
    ensures
        after.len() == before.len(),
        forall|i: int, j: int|
            0 <= i < j < after.len() ==> key_before(
                (#[trigger] after[i]).key@,
                (#[trigger] after[j]).key@,
            ),
        forall|i: int| 0 <= i < after.len() ==> before.contains(#[trigger] after[i]),
        forall|i: int| 0 <= i < before.len() ==> after.contains(#[trigger] before[i]),
{
    broadcast use vstd::seq_lib::group_to_multiset_ensures;

    after.to_multiset_ensures();
    before.to_multiset_ensures();
    assert(before.no_duplicates());
    before.lemma_multiset_has_no_duplicates();
    after.lemma_multiset_has_no_duplicates_conv();
    assert forall|i: int| 0 <= i < after.len() implies before.contains(#[trigger] after[i]) by {
        assert(after.contains(after[i]));
        assert(before.to_multiset().count(after[i]) > 0);
    }
    assert forall|i: int| 0 <= i < before.len() implies after.contains(#[trigger] before[i]) by {
        assert(before.contains(before[i]));
        assert(after.to_multiset().count(before[i]) > 0);
    }
    assert forall|i: int, j: int| 0 <= i < j < after.len() implies key_before(
        (#[trigger] after[i]).key@,
        (#[trigger] after[j]).key@,
    ) by {
        let p = choose|p: int| 0 <= p < before.len() && before[p] == after[i];
        let q = choose|q: int| 0 <= q < before.len() && before[q] == after[j];
        assert(before.contains(after[i]) && before.contains(after[j]));
        assert(after[i] != after[j]);
        assert(before[p].key@ != before[q].key@);
        assert(!after[j].precedes(after[i]));
        key_order_is_total(after[i].key@, after[j].key@, after[i].key@);
    }
}

/// Group `src`'s rows by `group_by` and aggregate `values` for each group.
///
/// No column to group by means one group over all rows. The same column may appear
/// several times with different aggregates.
pub fn compute<
    Src: PivotSource,
    P: Fn(F64, F64) -> F64,
    M: Fn(F64, F64) -> F64,
    T: Fn(F64, F64) -> F64,
    S: Fn(F64, u64) -> F64,
    N: Fn(u64) -> F64,
    R: Fn(F64) -> F64,
>(
    src: &Src,
    group_by: &Vec<ColIdx>,
    values: &Vec<(ColIdx, Agg)>,
    ops: &Arithmetic<P, M, T, S, N, R>,
) -> (r: PivotResult)
    requires
        ops.ready(),
    ensures
        pivoted(*src, group_by@, values@, *ops, r.groups@),
        r.accumulators == r.groups@.len(),
{
    let (cols, slot_of) = slots(values);
    let gathered_groups = gather(src, group_by, &cols, ops);
    let accumulators: usize = gathered_groups.len();
    let ghost rows = src.rows() as int;
    let ghost before = gathered_groups@;
    let ghost keys = first_keys(*src, group_by@, rows);
    proof {
        lemma_first_keys(*src, group_by@, rows);
    }
    let groups = sorted(gathered_groups);
    let ghost after = groups@;
    proof {
        assert forall|i: int, j: int|
            0 <= i < before.len() && 0 <= j < before.len() && i != j implies (
        #[trigger] before[i]).key@ != (#[trigger] before[j]).key@ by {
            assert(keys[i] != keys[j]);
        }
        lemma_sorted(before, after);
    }
    let mut out: Vec<PivotGroup> = Vec::new();
    let n: usize = groups.len();
    let m: usize = values.len();
    let mut g: usize = 0;
    while g < n
        invariant
            ops.ready(),
            g <= n == groups@.len(),
            after == groups@,
            rows == src.rows(),
            m == values@.len(),
            before.len() == keys.len(),
            gathered(*src, group_by@, cols@, *ops, before, rows),
            forall|i: int| 0 <= i < after.len() ==> before.contains(#[trigger] after[i]),
            slot_of@.len() == m,
            forall|i: int|
                0 <= i < m ==> (#[trigger] slot_of@[i]) < cols@.len() && cols@[slot_of@[i] as int]
                    == values@[i].0,
            out@.len() == g,
            forall|k: int| 0 <= k < g ==> (#[trigger] out@[k]).key@ == after[k].key@,
            forall|k: int| 0 <= k < g ==> (#[trigger] out@[k]).aggregates@.len() == m,
            forall|k: int, i: int|
                0 <= k < g && 0 <= i < m ==> ops.reported(
                    values@[i].1,
                    cells_in(*src, group_by@, out@[k].key@, values@[i].0, rows),
                    #[trigger] out@[k].aggregates@[i],
                ),
        decreases n - g,
    {
        let ghost group = after[g as int];
        proof {
            assert(before.contains(after[g as int]));
            let p = choose|p: int| 0 <= p < before.len() && before[p] == group;
            assert(before[p].accs@.len() == cols@.len());
            assert forall|s: int| 0 <= s < cols@.len() implies (#[trigger] group.accs@[s]).holds(
                *ops,
                cells_in(*src, group_by@, group.key@, cols@[s], rows),
            ) by {
                assert(before[p].accs@[s].holds(
                    *ops,
                    cells_in(*src, group_by@, before[p].key@, cols@[s], rows),
                ));
            }
        }
        let mut aggregates: Vec<Option<F64>> = Vec::with_capacity(m);
        let mut i: usize = 0;
        while i < m
            invariant
                ops.ready(),
                g < n == groups@.len(),
                group == groups@[g as int],
                i <= m == values@.len(),
                slot_of@.len() == m,
                forall|i: int|
                    0 <= i < m ==> (#[trigger] slot_of@[i]) < cols@.len()
                        && cols@[slot_of@[i] as int] == values@[i].0,
                group.accs@.len() == cols@.len(),
                forall|s: int|
                    0 <= s < cols@.len() ==> (#[trigger] group.accs@[s]).holds(
                        *ops,
                        cells_in(*src, group_by@, group.key@, cols@[s], rows),
                    ),
                aggregates@.len() == i,
                forall|k: int|
                    0 <= k < i ==> ops.reported(
                        values@[k].1,
                        cells_in(*src, group_by@, group.key@, values@[k].0, rows),
                        #[trigger] aggregates@[k],
                    ),
            decreases m - i,
        {
            let s: usize = slot_of[i];
            let agg = values[i].1;
            let ghost cells = cells_in(*src, group_by@, group.key@, values@[i as int].0, rows);
            assert(group.accs@[s as int].holds(*ops, cells));
            aggregates.push(groups[g].accs[s].value(ops, agg, Ghost(cells)));
            i = i + 1;
        }
        out.push(PivotGroup { key: copy_key(&groups[g].key), aggregates });
        g = g + 1;
    }
    proof {
        assert forall|row: int| 0 <= row < src.rows() implies has_group(
            out@,
            #[trigger] key_at(*src, group_by@, row),
        ) by {
            let key = key_at(*src, group_by@, row);
            assert(keys.contains(key));
            let p = choose|p: int| 0 <= p < keys.len() && keys[p] == key;
            assert(before[p].key@ == key);
            assert(after.contains(before[p]));
            let q = choose|q: int| 0 <= q < after.len() && after[q] == before[p];
            assert(out@[q].key@ == key);
        }
        assert forall|g: int| 0 <= g < out@.len() implies occurs(
            *src,
            group_by@,
            rows,
            (#[trigger] out@[g]).key@,
        ) by {
            assert(before.contains(after[g]));
            let p = choose|p: int| 0 <= p < before.len() && before[p] == after[g];
            assert(before[p].key@ == keys[p]);
        }
        assert forall|i: int, j: int| 0 <= i < j < out@.len() implies key_before(
            (#[trigger] out@[i]).key@,
            (#[trigger] out@[j]).key@,
        ) by {
            assert(key_before(after[i].key@, after[j].key@));
        }
    }
    PivotResult { groups: out, accumulators }
}

fn copy_key(k: &Vec<Cell>) -> (r: Vec<Cell>)
    ensures
        r@ == k@,
{
    let n: usize = k.len();
    let mut r: Vec<Cell> = Vec::with_capacity(n);
    let mut i: usize = 0;
    while i < n
        invariant
            i <= n == k@.len(),
            r@ == k@.subrange(0, i as int),
        decreases n - i,
    {
        r.push(k[i]);
        i = i + 1;
        assert(r@ =~= k@.subrange(0, i as int));
    }
    assert(k@.subrange(0, n as int) =~= k@);
    r
}

// ------------------------------------------------------------------- laws --

/// Every row is in exactly one group: the groups' row counts add up to the rows,
/// whichever column is counted.
pub proof fn group_counts_cover_every_row<S: PivotSource>(
    src: S,
    group_by: Seq<ColIdx>,
    col: ColIdx,
    k: int,
)
    requires
        k >= 0,
    ensures
        rows_in(src, group_by, first_keys(src, group_by, k), col, k) == k,
    decreases k,
{
    if k > 0 {
        group_counts_cover_every_row(src, group_by, col, k - 1);
        let before = first_keys(src, group_by, k - 1);
        let after = first_keys(src, group_by, k);
        let key = key_at(src, group_by, k - 1);
        lemma_first_keys(src, group_by, k - 1);
        if before.contains(key) {
            lemma_one_row_more(src, group_by, before, col, k);
        } else {
            lemma_other_groups(src, group_by, before, col, k);
            assert(after.drop_last() =~= before);
            lemma_cells_in(src, group_by, key, col, k - 1);
        }
    }
}

/// How many of the first `k` rows carry one of the keys, key by key.
pub open spec fn rows_in<S: PivotSource>(
    src: S,
    group_by: Seq<ColIdx>,
    keys: Seq<Seq<Cell>>,
    col: ColIdx,
    k: int,
) -> int
    decreases keys.len(),
{
    if keys.len() == 0 {
        0
    } else {
        rows_in(src, group_by, keys.drop_last(), col, k) + cells_in(
            src,
            group_by,
            keys.last(),
            col,
            k,
        ).len()
    }
}

proof fn lemma_other_groups<S: PivotSource>(
    src: S,
    group_by: Seq<ColIdx>,
    keys: Seq<Seq<Cell>>,
    col: ColIdx,
    k: int,
)
    requires
        k > 0,
        !keys.contains(key_at(src, group_by, k - 1)),
    ensures
        rows_in(src, group_by, keys, col, k) == rows_in(src, group_by, keys, col, k - 1),
    decreases keys.len(),
{
    if keys.len() > 0 {
        let key = key_at(src, group_by, k - 1);
        assert(keys.last() == keys[keys.len() - 1]);
        assert(!keys.drop_last().contains(key)) by {
            if keys.drop_last().contains(key) {
                let i = choose|i: int|
                    0 <= i < keys.drop_last().len() && keys.drop_last()[i] == key;
                assert(keys[i] == key);
            }
        }
        lemma_other_groups(src, group_by, keys.drop_last(), col, k);
    }
}

proof fn lemma_one_row_more<S: PivotSource>(
    src: S,
    group_by: Seq<ColIdx>,
    keys: Seq<Seq<Cell>>,
    col: ColIdx,
    k: int,
)
    requires
        k > 0,
        keys.no_duplicates(),
        keys.contains(key_at(src, group_by, k - 1)),
    ensures
        rows_in(src, group_by, keys, col, k) == rows_in(src, group_by, keys, col, k - 1) + 1,
    decreases keys.len(),
{
    let key = key_at(src, group_by, k - 1);
    let rest = keys.drop_last();
    let at = choose|i: int| 0 <= i < keys.len() && keys[i] == key;
    assert(rest.no_duplicates());
    if keys.last() == key {
        assert(!rest.contains(key)) by {
            if rest.contains(key) {
                let i = choose|i: int| 0 <= i < rest.len() && rest[i] == key;
                assert(keys[i] == key && keys[keys.len() - 1] == key);
            }
        }
        lemma_other_groups(src, group_by, rest, col, k);
    } else {
        assert(rest[at] == key);
        lemma_one_row_more(src, group_by, rest, col, k);
    }
}

/// A pivot holds one accumulator set for each distinct key and no more, however
/// many rows there are.
pub proof fn groups_are_the_distinct_keys<
    Src: PivotSource,
    P: Fn(F64, F64) -> F64,
    M: Fn(F64, F64) -> F64,
    T: Fn(F64, F64) -> F64,
    S: Fn(F64, u64) -> F64,
    N: Fn(u64) -> F64,
    R: Fn(F64) -> F64,
>(
    src: Src,
    group_by: Seq<ColIdx>,
    values: Seq<(ColIdx, Agg)>,
    ops: Arithmetic<P, M, T, S, N, R>,
    groups: Seq<PivotGroup>,
)
    requires
        pivoted(src, group_by, values, ops, groups),
    ensures
        groups.len() == first_keys(src, group_by, src.rows() as int).len(),
{
    let rows = src.rows() as int;
    let keys = first_keys(src, group_by, rows);
    lemma_first_keys(src, group_by, rows);
    let ours = Seq::new(groups.len(), |g: int| groups[g].key@);
    assert forall|i: int, j: int|
        0 <= i < ours.len() && 0 <= j < ours.len() && i != j implies ours[i] != ours[j] by {
        key_order_is_total(groups[i].key@, groups[j].key@, groups[i].key@);
        if i < j {
            assert(key_before(groups[i].key@, groups[j].key@));
        } else {
            assert(key_before(groups[j].key@, groups[i].key@));
        }
    }
    assert(ours.to_set() =~= keys.to_set()) by {
        assert forall|key: Seq<Cell>| ours.to_set().contains(key) implies keys.to_set().contains(
            key,
        ) by {
            let g = choose|g: int| 0 <= g < ours.len() && ours[g] == key;
            assert(occurs(src, group_by, rows, groups[g].key@));
            let row = choose|row: int|
                0 <= row < rows && #[trigger] key_at(src, group_by, row) == key;
            assert(keys.contains(key_at(src, group_by, row)));
        }
        assert forall|key: Seq<Cell>| keys.to_set().contains(key) implies ours.to_set().contains(
            key,
        ) by {
            let i = choose|i: int| 0 <= i < keys.len() && keys[i] == key;
            assert(occurs(src, group_by, rows, keys[i]));
            let row = choose|row: int|
                0 <= row < rows && #[trigger] key_at(src, group_by, row) == key;
            assert(has_group(groups, key_at(src, group_by, row)));
            let g = choose|g: int| 0 <= g < groups.len() && (#[trigger] groups[g]).key@ == key;
            assert(ours[g] == key);
        }
    }
    ours.unique_seq_to_set();
    keys.unique_seq_to_set();
}

/// Without a number in a group every numeric aggregate of it is absent, while the
/// count still counts the rows.
pub proof fn no_numbers_is_no_aggregate<
    P: Fn(F64, F64) -> F64,
    M: Fn(F64, F64) -> F64,
    T: Fn(F64, F64) -> F64,
    S: Fn(F64, u64) -> F64,
    N: Fn(u64) -> F64,
    R: Fn(F64) -> F64,
>(ops: Arithmetic<P, M, T, S, N, R>, agg: Agg, cells: Seq<Cell>, r: Option<F64>)
    requires
        ops.reported(agg, cells, r),
        numbers_of(cells).len() == 0,
    ensures
        (r is None) == (agg != Agg::Count),
{
}

/// The running sums of whole numbers are exact: nothing is left to compensate.
proof fn lemma_sums<
    P: Fn(F64, F64) -> F64,
    M: Fn(F64, F64) -> F64,
    T: Fn(F64, F64) -> F64,
    S: Fn(F64, u64) -> F64,
    N: Fn(u64) -> F64,
    R: Fn(F64) -> F64,
>(
    ops: Arithmetic<P, M, T, S, N, R>,
    ruler: Ruler,
    v: Seq<F64>,
    most: int,
    states: Seq<Moments>,
    ways: Seq<Steps>,
    k: int,
)
    requires
        ruler.straight(),
        ruler.adds(ops.plus),
        ruler.subtracts(ops.minus),
        most >= 0,
        all_marked(ruler, v, most),
        most * v.len() <= ruler.limit,
        most <= ruler.limit,
        ops.traced(v, states, ways),
        0 <= k <= v.len(),
    ensures
        ruler.reads(states[k].sum, units_of(ruler, v.subrange(0, k))),
        ruler.reads(states[k].c, 0),
    decreases k,
{
    let s = v.subrange(0, k);
    if k > 0 {
        lemma_sums(ops, ruler, v, most, states, ways, k - 1);
        assert(s.drop_last() =~= v.subrange(0, k - 1));
        assert forall|i: int| 0 <= i < s.len() implies (ruler.marks)(#[trigger] s[i]) is Some
            && -most <= (ruler.marks)(s[i])->0 <= most by {
            assert(s[i] == v[i]);
        }
        lemma_units_bound(ruler, s, most);
        assert(most * k <= most * v.len()) by (nonlinear_arith)
            requires
                k <= v.len(),
                most >= 0,
        ;
        let x = v[k - 1];
        let a = (ruler.marks)(x)->0;
        assert((ruler.marks)(v[k - 1]) is Some);
        assert(ruler.reads(x, a));
        let w = ways[k - 1];
        let (p, t) = (states[k - 1], states[k]);
        assert(ops.folded(states[k - 1], v[k - 1], (k - 1 + 1) as u64, states[k - 1 + 1], w));
        assert(ruler.reads(w.y, a - 0));
        let before = units_of(ruler, s.drop_last());
        assert(ruler.reads(t.sum, before + a));
        assert(ruler.reads(w.d, before + a - before));
        assert(ruler.reads(t.c, a - a));
    }
}

/// The squares of some numbers together.
pub open spec fn squares_of(ruler: Ruler, v: Seq<F64>) -> int
    decreases v.len(),
{
    if v.len() == 0 {
        0
    } else {
        squares_of(ruler, v.drop_last()) + (ruler.marks)(v.last())->0 * (ruler.marks)(v.last())->0
    }
}

/// Each of the first so many numbers have a whole mean, and `means` are these.
pub open spec fn whole_means(ruler: Ruler, v: Seq<F64>, means: Seq<int>) -> bool {
    &&& means.len() == v.len() + 1
    &&& means[0] == 0
    &&& forall|k: int|
        0 < k <= v.len() ==> #[trigger] means[k] * k == units_of(ruler, v.subrange(0, k))
}

proof fn lemma_welford(k: int, a: int, b: int, x: int, q: int)
    requires
        b * k == a * (k - 1) + x,
    ensures
        (q - (k - 1) * (a * a)) + (x - a) * (x - b) == q + x * x - k * (b * b),
        x - a == k * (b - a),
        x - b == (k - 1) * (b - a),
{
    assert(x == b * k - a * (k - 1));
    assert(x - a == k * (b - a)) by (nonlinear_arith)
        requires
            x == b * k - a * (k - 1),
    ;
    assert(x - b == (k - 1) * (b - a)) by (nonlinear_arith)
        requires
            x == b * k - a * (k - 1),
    ;
    assert((x - a) * (x - b) == x * x - x * b - a * x + a * b) by (nonlinear_arith);
    assert(x * b == k * (b * b) - (k - 1) * (a * b)) by (nonlinear_arith)
        requires
            x == b * k - a * (k - 1),
    ;
    assert(a * x == k * (a * b) - (k - 1) * (a * a)) by (nonlinear_arith)
        requires
            x == b * k - a * (k - 1),
    ;
    assert(k * (a * b) - (k - 1) * (a * b) == a * b) by (nonlinear_arith);
}

proof fn lemma_spread<
    P: Fn(F64, F64) -> F64,
    M: Fn(F64, F64) -> F64,
    T: Fn(F64, F64) -> F64,
    S: Fn(F64, u64) -> F64,
    N: Fn(u64) -> F64,
    R: Fn(F64) -> F64,
>(
    ops: Arithmetic<P, M, T, S, N, R>,
    ruler: Ruler,
    v: Seq<F64>,
    most: int,
    means: Seq<int>,
    states: Seq<Moments>,
    ways: Seq<Steps>,
    k: int,
)
    requires
        ruler.straight(),
        ruler.adds(ops.plus),
        ruler.subtracts(ops.minus),
        ruler.multiplies(ops.times),
        ruler.shares(ops.share),
        most >= 1,
        all_marked(ruler, v, most),
        4 * (most * most) * (v.len() + 1) <= ruler.limit,
        v.len() <= u64::MAX,
        whole_means(ruler, v, means),
        ops.traced(v, states, ways),
        0 <= k <= v.len(),
    ensures
        ruler.reads(states[k].mean, means[k]),
        -most <= means[k] <= most,
        ruler.reads(
            states[k].m2,
            squares_of(ruler, v.subrange(0, k)) - k * (means[k] * means[k]),
        ),
        0 <= squares_of(ruler, v.subrange(0, k)) - k * (means[k] * means[k]) <= 4 * (most * most)
            * k,
    decreases k,
{
    let s = v.subrange(0, k);
    if k > 0 {
        lemma_spread(ops, ruler, v, most, means, states, ways, k - 1);
        let p = v.subrange(0, k - 1);
        assert(s.drop_last() =~= p);
        assert forall|i: int| 0 <= i < s.len() implies (ruler.marks)(#[trigger] s[i]) is Some
            && -most <= (ruler.marks)(s[i])->0 <= most by {
            assert(s[i] == v[i]);
        }
        lemma_units_bound(ruler, s, most);
        let (a, b) = (means[k - 1], means[k]);
        let x = (ruler.marks)(v[k - 1])->0;
        assert((ruler.marks)(v[k - 1]) is Some && -most <= x <= most);
        assert(ruler.reads(v[k - 1], x));
        assert(means[k] * k == units_of(ruler, v.subrange(0, k)));
        if k > 1 {
            assert(means[k - 1] * (k - 1) == units_of(ruler, v.subrange(0, k - 1)));
        } else {
            assert(units_of(ruler, p) == 0);
            assert(a * (k - 1) == 0) by (nonlinear_arith)
                requires
                    k == 1,
            ;
        }
        assert(b * k == a * (k - 1) + x);
        assert(-most <= b <= most) by (nonlinear_arith)
            requires
                -(most * k) <= b * k <= most * k,
                k > 0,
        ;
        let q = squares_of(ruler, p);
        lemma_welford(k, a, b, x, q);
        let w = ways[k - 1];
        assert(ops.folded(states[k - 1], v[k - 1], (k - 1 + 1) as u64, states[k - 1 + 1], w));
        let big = 4 * (most * most);
        assert(big * k <= big * (v.len() + 1) && big * (k - 1) + big == big * k && 4 * most <= big
            && big >= 4) by (nonlinear_arith)
            requires
                k <= v.len() + 1,
                most >= 1,
                big == 4 * (most * most),
        ;
        assert(big <= big * (v.len() + 1)) by (nonlinear_arith)
            requires
                big >= 0,
        ;
        let delta = x - a;
        let rest = x - b;
        assert(ruler.reads(w.delta, delta));
        // The part of one: what the mean moves by.
        assert(delta == (b - a) * k) by (nonlinear_arith)
            requires
                delta == k * (b - a),
        ;
        assert(k as u64 == k);
        assert(ruler.reads(w.delta, (b - a) * (k as u64)));
        assert(ruler.reads(w.part, b - a));
        assert(ruler.reads(states[k].mean, a + (b - a)));
        assert(ruler.reads(w.rest, rest));
        assert(0 <= delta * rest <= big) by (nonlinear_arith)
            requires
                delta == k * (b - a),
                rest == (k - 1) * (b - a),
                k >= 1,
                -2 * most <= delta <= 2 * most,
                -2 * most <= rest <= 2 * most,
                big == 4 * (most * most),
        ;
        assert(ruler.reads(w.square, delta * rest));
        let m = q - (k - 1) * (a * a);
        assert(ruler.reads(states[k - 1].m2, m));
        assert(ruler.reads(states[k].m2, m + delta * rest));
    } else {
        assert(squares_of(ruler, s) == 0);
        assert(k * (means[k] * means[k]) == 0) by (nonlinear_arith)
            requires
                k == 0,
        ;
        assert(4 * (most * most) * k == 0) by (nonlinear_arith)
            requires
                k == 0,
        ;
    }
}

/// An aggregate is what its name says, where the arithmetic is exact: how many rows there
/// are, what their numbers add up to, that shared out among the numbers, the least and the
/// greatest of them, and the square root of their mean squared deviation from the mean.
pub proof fn an_aggregate_is_what_its_name_says<
    P: Fn(F64, F64) -> F64,
    M: Fn(F64, F64) -> F64,
    T: Fn(F64, F64) -> F64,
    S: Fn(F64, u64) -> F64,
    N: Fn(u64) -> F64,
    R: Fn(F64) -> F64,
>(
    ops: Arithmetic<P, M, T, S, N, R>,
    ruler: Ruler,
    agg: Agg,
    cells: Seq<Cell>,
    most: int,
    means: Seq<int>,
    variance: int,
    r: Option<F64>,
)
    requires
        ruler.straight(),
        ruler.adds(ops.plus),
        ruler.subtracts(ops.minus),
        ruler.multiplies(ops.times),
        ruler.shares(ops.share),
        ruler.counts(ops.number),
        most >= 1,
        all_marked(ruler, numbers_of(cells), most),
        4 * (most * most) * (numbers_of(cells).len() + 1) <= ruler.limit,
        cells.len() <= u64::MAX,
        cells.len() <= ruler.limit,
        numbers_of(cells).len() > 0,
        ops.reported(agg, cells, r),
        // A mean is spoken of where it is whole, a deviation where the means on the way are.
        agg is Avg || agg is StdDev ==> whole_means(ruler, numbers_of(cells), means),
        agg is StdDev ==> variance * numbers_of(cells).len() == squares_of(
            ruler,
            numbers_of(cells),
        ) - numbers_of(cells).len() * (means.last() * means.last()),
    ensures
        r is Some,
        agg is Count ==> ruler.reads(r->0, cells.len() as int),
        agg is Sum ==> ruler.reads(r->0, units_of(ruler, numbers_of(cells))),
        agg is Avg ==> ruler.reads(r->0, means.last()),
        agg is Min ==> numbers_of(cells).contains(r->0) && forall|i: int|
            0 <= i < numbers_of(cells).len() ==> !(#[trigger] numbers_of(cells)[i]).lt_spec(r->0),
        agg is Max ==> numbers_of(cells).contains(r->0) && forall|i: int|
            0 <= i < numbers_of(cells).len() ==> !r->0.lt_spec(#[trigger] numbers_of(cells)[i]),
        agg is StdDev ==> exists|q: F64| #[trigger]
            ruler.reads(q, variance) && ops.root.ensures((q,), r->0),
{
    let v = numbers_of(cells);
    let n = v.len() as int;
    let (states, ways) = choose|states: Seq<Moments>, ways: Seq<Steps>|
        #[trigger] ops.traced(v, states, ways) && ops.outcome(agg, cells, states.last(), r);
    lemma_fewer_numbers(cells);
    assert(most * n <= 4 * (most * most) * (n + 1) && most <= 4 * (most * most) * (n + 1))
        by (nonlinear_arith)
        requires
            most >= 1,
            n >= 0,
    ;
    lemma_sums(ops, ruler, v, most, states, ways, n);
    assert(v.subrange(0, n) =~= v);
    assert forall|i: int| 0 <= i < v.len() implies (#[trigger] v[i]).finite_spec() by {
        assert(ruler.reads(v[i], (ruler.marks)(v[i])->0));
    }
    the_smallest_is_among_them(v);
    the_largest_is_among_them(v);
    lemma_units_bound(ruler, v, most);
    if agg is Avg {
        assert(means[n] * n == units_of(ruler, v.subrange(0, n)));
        assert(ruler.reads(states.last().sum, means[n] * (n as u64)));
    }
    if agg is StdDev {
        lemma_spread(ops, ruler, v, most, means, states, ways, n);
        let q = choose|q: F64| #[trigger]
            ops.share.ensures((states.last().m2, n as u64), q) && ops.root.ensures((q,), r->0);
        let big = 4 * (most * most);
        assert(big * n <= big * (n + 1)) by (nonlinear_arith)
            requires
                big == 4 * (most * most),
        ;
        assert(ruler.reads(states.last().m2, variance * (n as u64)));
        assert(ruler.reads(q, variance));
    }
}

/// Numbers stand before text and text before blanks; of two numbers the smaller stands
/// first.
pub proof fn numbers_stand_before_text_before_blanks(
    x: F64,
    y: F64,
    id: StrId,
    a: Seq<Cell>,
    b: Seq<Cell>,
)
    requires
        !x.nan_spec(),
        !y.nan_spec(),
    ensures
        x.lt_spec(y) ==> key_before(seq![Cell::Number(x)] + a, seq![Cell::Number(y)] + b),
        key_before(seq![Cell::Number(x)] + a, seq![Cell::Text(id)] + b),
        key_before(seq![Cell::Text(id)] + a, seq![Cell::Blank] + b),
        key_before(seq![Cell::Number(x)] + a, seq![Cell::Blank] + b),
        key_before(seq![Cell::Blank] + a, seq![Cell::Blank] + b) == key_before(a, b),
{
    let p = seq![Cell::Blank] + a;
    let q = seq![Cell::Blank] + b;
    assert(p.subrange(1, p.len() as int) =~= a);
    assert(q.subrange(1, q.len() as int) =~= b);
}

/// A row gives its cell to the group of its own key.
pub open spec fn gives<S: PivotSource>(
    src: S,
    group_by: Seq<ColIdx>,
    key: Seq<Cell>,
    col: ColIdx,
    row: int,
    c: Cell,
) -> bool {
    key_at(src, group_by, row) == key && src.at(col, row as usize) == c
}

/// A group gathers the cells of the rows that have its key, and no others.
pub proof fn a_group_gathers_the_rows_of_its_key<S: PivotSource>(
    src: S,
    group_by: Seq<ColIdx>,
    key: Seq<Cell>,
    col: ColIdx,
    k: int,
    c: Cell,
)
    requires
        0 <= k <= usize::MAX,
    ensures
        cells_in(src, group_by, key, col, k).contains(c) <==> exists|row: int|
            0 <= row < k && #[trigger] gives(src, group_by, key, col, row, c),
    decreases k,
{
    if k > 0 {
        a_group_gathers_the_rows_of_its_key(src, group_by, key, col, k - 1, c);
        let before = cells_in(src, group_by, key, col, k - 1);
        let all = cells_in(src, group_by, key, col, k);
        if before.contains(c) {
            let i = choose|i: int| 0 <= i < before.len() && before[i] == c;
            assert(all[i] == c);
        }
        if all.contains(c) {
            let i = choose|i: int| 0 <= i < all.len() && all[i] == c;
            if i < before.len() {
                assert(before[i] == c);
                let row = choose|row: int|
                    0 <= row < k - 1 && #[trigger] gives(src, group_by, key, col, row, c);
                assert(gives(src, group_by, key, col, row, c));
            } else {
                assert(gives(src, group_by, key, col, k - 1, c));
            }
        }
        if exists|row: int| 0 <= row < k && #[trigger] gives(src, group_by, key, col, row, c) {
            let row = choose|row: int|
                0 <= row < k && #[trigger] gives(src, group_by, key, col, row, c);
            if row == k - 1 {
                assert(all[all.len() - 1] == c);
            } else {
                assert(before.contains(c));
            }
        }
    }
}

/// The numbers of some cells are those of the first and then those of the rest; a number
/// counts as itself, and text and blanks as nothing.
pub proof fn numbers_are_picked_out_in_order(a: Seq<Cell>, b: Seq<Cell>, c: Cell)
    ensures
        numbers_of(a + b) == numbers_of(a) + numbers_of(b),
        numbers_of(seq![c]) == match c {
            Cell::Number(x) => seq![x],
            _ => Seq::empty(),
        },
    decreases b.len(),
{
    let one = seq![c];
    assert(one.drop_last() =~= Seq::<Cell>::empty());
    assert(numbers_of(one.drop_last()) =~= Seq::<F64>::empty());
    assert(one.last() == c);
    match c {
        Cell::Number(x) => {
            assert(Seq::<F64>::empty().push(x) =~= seq![x]);
        },
        _ => {},
    }
    if b.len() == 0 {
        assert(a + b =~= a);
        assert(numbers_of(a) + numbers_of(b) =~= numbers_of(a));
    } else {
        numbers_are_picked_out_in_order(a, b.drop_last(), c);
        assert((a + b).drop_last() =~= a + b.drop_last());
        assert((a + b).last() == b.last());
        assert(numbers_of(a + b) =~= numbers_of(a) + numbers_of(b));
    }
}

} // verus!
