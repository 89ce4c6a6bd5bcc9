//! Display order: a permutation of an axis, stored as runs.
//!
//! Reordering a column must not move the data. A reorder changes *which data
//! index each display position shows*, and the data never moves at all.
//!
//! A permutation made by a handful of structural edits is a small number of
//! contiguous ascending runs of the original order: identity over 200M rows is
//! one run, and a move splits at most three boundaries. Lookup is a binary
//! search over run starts. [`AxisOrder::MAX_RUNS`] caps the growth, and an edit
//! that would pass the cap is refused with an error.
//!
//! Inserting allocates a *fresh* data index from beyond everything handed out
//! so far; deleting cuts the run out of the display order and erases nothing.

use crate::capacity::{at_most_max, capacity_of, capped_mul};
use crate::text::{decimal, push_decimal};
use vstd::prelude::*;

verus! {

/// A block of consecutively increasing data indices: `data..data + len` occupy
/// consecutive display positions.
#[derive(Clone, Copy, Debug, PartialEq, Eq, Structural)]
struct Run {
    data: u32,
    len: u32,
}

/// `first`, `first + 1`, .., `n` of them.
pub open spec fn ascending(first: int, n: nat) -> Seq<u32> {
    Seq::new(n, |i: int| (first + i) as u32)
}

/// The runs laid end to end.
spec fn expand(runs: Seq<Run>) -> Seq<u32>
    decreases runs.len(),
{
    if runs.len() == 0 {
        Seq::empty()
    } else {
        expand(runs.drop_last()) + ascending(runs.last().data as int, runs.last().len as nat)
    }
}

/// No run is empty and none reaches past the last data index.
spec fn solid(runs: Seq<Run>) -> bool {
    forall|i: int|
        0 <= i < runs.len() ==> (#[trigger] runs[i]).len > 0 && runs[i].data + runs[i].len
            <= u32::MAX
}

/// No run could be joined to the next.
spec fn apart(runs: Seq<Run>) -> bool {
    forall|i: int, j: int|
        0 <= i && j == i + 1 && j < runs.len() ==> (#[trigger] runs[i]).data + runs[i].len != (
        #[trigger] runs[j]).data
}

/// The number of maximal ascending stretches in `s`.
pub open spec fn pieces(s: Seq<u32>) -> nat
    decreases s.len(),
{
    if s.len() == 0 {
        0
    } else {
        pieces(s.drop_last()) + if s.len() >= 2 && s[s.len() - 1] == s[s.len() - 2] + 1 {
            0nat
        } else {
            1nat
        }
    }
}

/// `s` with the `count` entries at `from` taken out and put back so that they
/// begin where `to` pointed before the move.
pub open spec fn moved(s: Seq<u32>, from: int, count: int, to: int) -> Seq<u32> {
    let block = s.subrange(from, from + count);
    let rest = removed(s, from, count);
    let dest = if to > from {
        to - count
    } else {
        to
    };
    inserted(rest, dest, block)
}

/// `s` without the `count` entries at `at`.
pub open spec fn removed(s: Seq<u32>, at: int, count: int) -> Seq<u32> {
    s.subrange(0, at) + s.subrange(at + count, s.len() as int)
}

/// `s` with `block` put in at `at`.
pub open spec fn inserted(s: Seq<u32>, at: int, block: Seq<u32>) -> Seq<u32> {
    s.subrange(0, at) + block + s.subrange(at, s.len() as int)
}

/// The `(first, count)` spans laid end to end.
pub open spec fn flatten(spans: Seq<(u32, u32)>) -> Seq<u32>
    decreases spans.len(),
{
    if spans.len() == 0 {
        Seq::empty()
    } else {
        flatten(spans.drop_last()) + ascending(spans.last().0 as int, spans.last().1 as nat)
    }
}

proof fn lemma_expand_append(a: Seq<Run>, b: Seq<Run>)
    ensures
        expand(a + b) == expand(a) + expand(b),
    decreases b.len(),
{
    if b.len() == 0 {
        assert(a + b =~= a);
        assert(expand(a) + expand(b) =~= expand(a));
    } else {
        lemma_expand_append(a, b.drop_last());
        assert((a + b).drop_last() =~= a + b.drop_last());
        assert((a + b).last() == b.last());
        assert(expand(a + b) =~= expand(a) + expand(b));
    }
}

proof fn lemma_expand_one(r: Run)
    ensures
        expand(seq![r]) == ascending(r.data as int, r.len as nat),
{
    reveal_with_fuel(expand, 2);
    assert(seq![r].drop_last() =~= Seq::<Run>::empty());
    assert(expand(seq![r]) =~= ascending(r.data as int, r.len as nat));
}

/// Where run `i` begins.
spec fn start_of(runs: Seq<Run>, i: int) -> nat {
    expand(runs.subrange(0, i)).len()
}

proof fn lemma_start_step(runs: Seq<Run>, i: int)
    requires
        0 <= i < runs.len(),
    ensures
        start_of(runs, i + 1) == start_of(runs, i) + runs[i].len,
{
    let p = runs.subrange(0, i + 1);
    assert(p.drop_last() =~= runs.subrange(0, i));
    assert(p.last() == runs[i]);
}

proof fn lemma_start_mono(runs: Seq<Run>, i: int, j: int)
    requires
        0 <= i <= j <= runs.len(),
    ensures
        start_of(runs, i) <= start_of(runs, j),
        solid(runs) && i < j ==> start_of(runs, i) < start_of(runs, j),
    decreases j - i,
{
    if i < j {
        lemma_start_mono(runs, i, j - 1);
        lemma_start_step(runs, j - 1);
    }
}

/// Display position `d` inside run `i` shows the run's data plus the offset.
proof fn lemma_expand_at(runs: Seq<Run>, i: int, d: int)
    requires
        0 <= i < runs.len(),
        start_of(runs, i) <= d < start_of(runs, i + 1),
    ensures
        d < expand(runs).len(),
        expand(runs)[d] == (runs[i].data + (d - start_of(runs, i))) as u32,
{
    let head = runs.subrange(0, i + 1);
    let tail = runs.subrange(i + 1, runs.len() as int);
    assert(head + tail =~= runs);
    lemma_expand_append(head, tail);
    assert(head.drop_last() =~= runs.subrange(0, i));
    assert(head.last() == runs[i]);
    lemma_start_step(runs, i);
}

/// Cutting a run in two changes nothing.
proof fn lemma_expand_cut(runs: Seq<Run>, i: int, left: Run, right: Run)
    requires
        0 <= i < runs.len(),
        left.data == runs[i].data,
        left.len + right.len == runs[i].len,
        right.data == runs[i].data + left.len,
    ensures
        expand(runs.update(i, left).insert(i + 1, right)) == expand(runs),
        start_of(runs.update(i, left).insert(i + 1, right), i + 1) == start_of(runs, i) + left.len,
{
    let cut = runs.update(i, left).insert(i + 1, right);
    let head = runs.subrange(0, i);
    let tail = runs.subrange(i + 1, runs.len() as int);
    assert(runs =~= head + seq![runs[i]] + tail);
    assert(cut =~= head + (seq![left] + seq![right]) + tail);
    lemma_expand_append(head + seq![runs[i]], tail);
    lemma_expand_append(head, seq![runs[i]]);
    lemma_expand_append(head + (seq![left] + seq![right]), tail);
    lemma_expand_append(head, seq![left] + seq![right]);
    lemma_expand_append(seq![left], seq![right]);
    lemma_expand_one(runs[i]);
    lemma_expand_one(left);
    lemma_expand_one(right);
    assert(ascending(left.data as int, left.len as nat) + ascending(
        right.data as int,
        right.len as nat,
    ) =~= ascending(runs[i].data as int, runs[i].len as nat));
    assert(cut.subrange(0, i + 1) =~= head + seq![left]);
    lemma_expand_append(head, seq![left]);
}

/// A run boundary cuts the expansion where the run begins.
proof fn lemma_expand_parts(runs: Seq<Run>, i: int)
    requires
        0 <= i <= runs.len(),
    ensures
        start_of(runs, i) <= expand(runs).len(),
        expand(runs.subrange(0, i)) == expand(runs).subrange(0, start_of(runs, i) as int),
        expand(runs.subrange(i, runs.len() as int)) == expand(runs).subrange(
            start_of(runs, i) as int,
            expand(runs).len() as int,
        ),
{
    let head = runs.subrange(0, i);
    let tail = runs.subrange(i, runs.len() as int);
    assert(head + tail =~= runs);
    lemma_expand_append(head, tail);
    assert(expand(head) =~= expand(runs).subrange(0, start_of(runs, i) as int));
    assert(expand(tail) =~= expand(runs).subrange(
        start_of(runs, i) as int,
        expand(runs).len() as int,
    ));
}

/// Distinct indices below `n` are at most `n` many.
proof fn lemma_pigeonhole(s: Seq<u32>, n: int)
    requires
        s.no_duplicates(),
        forall|i: int| 0 <= i < s.len() ==> s[i] < n,
        0 <= n,
    ensures
        s.len() <= n,
{
    let t = s.map_values(|x: u32| x as int);
    assert(t.no_duplicates());
    t.unique_seq_to_set();
    let r = vstd::set_lib::set_int_range(0, n);
    vstd::set_lib::lemma_int_range(0, n);
    assert forall|x: int| t.to_set().contains(x) implies r.contains(x) by {
        let i = choose|i: int| 0 <= i < t.len() && t[i] == x;
        assert(s[i] < n);
    }
    vstd::set_lib::lemma_len_subset(t.to_set(), r);
}

proof fn lemma_pieces_ascending(s: Seq<u32>, first: int, n: nat)
    requires
        n > 0,
        0 <= first,
        first + n <= u32::MAX,
    ensures
        pieces(s + ascending(first, n)) == pieces(s) + if s.len() > 0 && s.last() + 1 == first {
            0nat
        } else {
            1nat
        },
    decreases n,
{
    let t = s + ascending(first, n);
    if n == 1 {
        assert(t.drop_last() =~= s);
    } else {
        lemma_pieces_ascending(s, first, (n - 1) as nat);
        assert(t.drop_last() =~= s + ascending(first, (n - 1) as nat));
    }
}

/// Runs that are apart are exactly the maximal stretches of their expansion.
proof fn lemma_pieces_of_runs(runs: Seq<Run>)
    requires
        solid(runs),
        apart(runs),
    ensures
        pieces(expand(runs)) == runs.len(),
        runs.len() > 0 ==> expand(runs).len() > 0 && expand(runs).last() == runs.last().data
            + runs.last().len - 1,
    decreases runs.len(),
{
    if runs.len() > 0 {
        let init = runs.drop_last();
        assert(solid(init)) by {
            assert forall|i: int| 0 <= i < init.len() implies (#[trigger] init[i]).len > 0
                && init[i].data + init[i].len <= u32::MAX by {
                assert(init[i] == runs[i]);
            }
        }
        assert(apart(init)) by {
            assert forall|i: int, j: int| 0 <= i && j == i + 1 && j < init.len() implies (
            #[trigger] init[i]).data + init[i].len != (#[trigger] init[j]).data by {
                assert(init[i] == runs[i] && init[j] == runs[j]);
            }
        }
        lemma_pieces_of_runs(init);
        let last = runs.last();
        assert(last == runs[runs.len() - 1]);
        lemma_pieces_ascending(expand(init), last.data as int, last.len as nat);
        if init.len() > 0 {
            assert(init.last() == runs[runs.len() - 2]);
            assert(runs[runs.len() - 2].data + runs[runs.len() - 2].len != runs[runs.len()
                - 1].data);
        }
    }
}

proof fn lemma_pieces_all_ascending(n: nat)
    requires
        n <= u32::MAX,
    ensures
        pieces(ascending(0, n)) == if n == 0 {
            0nat
        } else {
            1nat
        },
{
    if n > 0 {
        lemma_pieces_ascending(Seq::<u32>::empty(), 0, n);
        assert(Seq::<u32>::empty() + ascending(0, n) =~= ascending(0, n));
    }
}

/// Taking entries out keeps the rest distinct, and putting new ones in that
/// are distinct and not yet there keeps all of them distinct.
proof fn lemma_distinct_edits(s: Seq<u32>, at: int, count: int, block: Seq<u32>)
    requires
        s.no_duplicates(),
        0 <= at,
    ensures
        0 <= count && at + count <= s.len() ==> removed(s, at, count).no_duplicates(),
        at <= s.len() && block.no_duplicates() && (forall|i: int, j: int|
            0 <= i < s.len() && 0 <= j < block.len() ==> s[i] != block[j]) ==> inserted(
            s,
            at,
            block,
        ).no_duplicates(),
{
}

proof fn lemma_moved_distinct(s: Seq<u32>, from: int, count: int, to: int)
    requires
        s.no_duplicates(),
        0 <= from,
        0 < count,
        from + count <= s.len(),
        0 <= to <= s.len(),
        to <= from || from + count <= to,
    ensures
        moved(s, from, count, to).no_duplicates(),
        moved(s, from, count, to).len() == s.len(),
        forall|i: int|
            0 <= i < s.len() ==> s.contains(#[trigger] moved(s, from, count, to)[i]),
{
    let block = s.subrange(from, from + count);
    let rest = removed(s, from, count);
    let dest = if to > from {
        to - count
    } else {
        to
    };
    let m = moved(s, from, count, to);
    lemma_distinct_edits(s, from, count, block);
    assert forall|i: int, j: int| 0 <= i < rest.len() && 0 <= j < block.len() implies rest[i]
        != block[j] by {
        assert(rest[i] == if i < from {
            s[i]
        } else {
            s[i + count]
        });
        assert(block[j] == s[from + j]);
    }
    lemma_distinct_edits(rest, dest, count, block);
    assert forall|i: int| 0 <= i < s.len() implies s.contains(#[trigger] m[i]) by {
        if i < dest {
            assert(m[i] == rest[i]);
            assert(rest[i] == s[if i < from {
                i
            } else {
                i + count
            }]);
        } else if i < dest + count {
            assert(m[i] == s[from + (i - dest)]);
        } else {
            assert(m[i] == rest[i - count]);
            assert(rest[i - count] == s[if i - count < from {
                i - count
            } else {
                i
            }]);
        }
    }
}

/// Why a structural edit was refused.
#[derive(Clone, Copy, Debug, PartialEq, Eq, Structural)]
pub enum OrderError {
    /// The operation would push the run count past [`AxisOrder::MAX_RUNS`].
    TooFragmented { runs: usize, limit: usize },
    /// A display position or span fell outside the axis.
    OutOfRange { at: u64, len: u64 },
    /// A move whose destination lies inside the span being moved.
    DestinationInsideSpan,
}

impl OrderError {
    /// What the user is told.
    pub open spec fn message_spec(self) -> Seq<char> {
        match self {
            OrderError::TooFragmented { runs, limit } => "too many separate moves to track ("@
                + decimal(runs as nat) + " of "@ + decimal(limit as nat)
                + ") — sort the sheet or save and reopen it to start from a clean order"@,
            OrderError::OutOfRange { at, len } => "position "@ + decimal(at as nat)
                + " is outside the "@ + decimal(len as nat) + " available"@,
            OrderError::DestinationInsideSpan => "cannot move a block into the middle of itself"@,
        }
    }

    pub fn message(&self) -> (s: String)
        ensures
            s@ == self.message_spec(),
    {
        let mut s = String::new();
        match self {
            OrderError::TooFragmented { runs, limit } => {
                s.push_str("too many separate moves to track (");
                push_decimal(&mut s, *runs as u64);
                s.push_str(" of ");
                push_decimal(&mut s, *limit as u64);
                s.push_str(") — sort the sheet or save and reopen it to start from a clean order");
            },
            OrderError::OutOfRange { at, len } => {
                s.push_str("position ");
                push_decimal(&mut s, *at);
                s.push_str(" is outside the ");
                push_decimal(&mut s, *len);
                s.push_str(" available");
            },
            OrderError::DestinationInsideSpan => {
                s.push_str("cannot move a block into the middle of itself");
            },
        }
        assert(s@ =~= self.message_spec());
        s
    }
}

/// A permutation of one axis (rows or columns), stored as ascending runs.
///
/// Its view is the order itself: the data index shown at each display position.
#[derive(Debug, PartialEq, Eq)]
pub struct AxisOrder {
    /// Runs in display order.
    runs: Vec<Run>,
    /// `starts[i]` is the display position where `runs[i]` begins, with the
    /// total in one more slot at the end.
    starts: Vec<u64>,
    /// Next unused data index.
    next_fresh: u32,
}

impl Clone for AxisOrder {
    fn clone(&self) -> (r: AxisOrder)
        ensures
            r@ == self@,
            r.fresh() == self.fresh(),
            self.wf() ==> r.wf(),
    {
        let r = AxisOrder {
            runs: self.runs.clone(),
            starts: self.starts.clone(),
            next_fresh: self.next_fresh,
        };
        assert(r.runs@ =~= self.runs@);
        assert(r.starts@ =~= self.starts@);
        r
    }
}

impl View for AxisOrder {
    type V = Seq<u32>;

    closed spec fn view(&self) -> Seq<u32> {
        expand(self.runs@)
    }
}

impl AxisOrder {
    /// Cap on run count. Beyond this, structural edits are refused rather than
    /// silently degrading lookup.
    pub const MAX_RUNS: usize = 65_536;

    /// The data index that the next insert will hand out.
    pub closed spec fn fresh(&self) -> int {
        self.next_fresh as int
    }

    /// Every data index is shown at most once and has been handed out, and the
    /// runs are as few as they can be.
    pub closed spec fn wf(&self) -> bool {
        &&& self.shaped()
        &&& self.indexed()
        &&& apart(self.runs@)
    }

    spec fn shaped(&self) -> bool {
        &&& solid(self.runs@)
        &&& self@.no_duplicates()
        &&& forall|i: int| 0 <= i < self@.len() ==> self@[i] < self.next_fresh
    }

    spec fn indexed(&self) -> bool {
        &&& self.starts@.len() == self.runs@.len() + 1
        &&& forall|i: int|
            0 <= i <= self.runs@.len() ==> (#[trigger] self.starts@[i]) as nat == start_of(
                self.runs@,
                i,
            )
    }

    /// What holds of every order: no data index is shown twice, each has been
    /// handed out, and so an axis is no longer than the indices handed out.
    pub proof fn order_is_a_permutation(&self)
        requires
            self.wf(),
        ensures
            self@.no_duplicates(),
            forall|i: int| 0 <= i < self@.len() ==> self@[i] < self.fresh(),
            self@.len() <= self.fresh() <= u32::MAX,
    {
        lemma_pigeonhole(self@, self.next_fresh as int);
    }

    proof fn lemma_len(&self)
        requires
            self.indexed(),
        ensures
            self.starts@[self.runs@.len() as int] == self@.len(),
    {
        assert(self.runs@.subrange(0, self.runs@.len() as int) =~= self.runs@);
    }

    proof fn lemma_identity(&self)
        requires
            self.shaped(),
            apart(self.runs@),
        ensures
            self@ == ascending(0, self@.len()) <==> (self.runs@.len() == 0 || (self.runs@.len()
                == 1 && self.runs@[0].data == 0)),
            pieces(self@) == self.runs@.len(),
    {
        let runs = self.runs@;
        lemma_pieces_of_runs(runs);
        lemma_pigeonhole(self@, self.next_fresh as int);
        lemma_pieces_all_ascending(self@.len());
        if runs.len() == 1 {
            assert(runs =~= seq![runs[0]]);
            lemma_expand_one(runs[0]);
            assert(runs[0].len > 0);
            assert(self@[0] == runs[0].data);
        }
        if runs.len() == 0 {
            assert(self@ =~= ascending(0, 0));
        }
    }

    /// The untouched order for an axis of `len` entries: one run, whatever
    /// the length.
    pub fn identity(len: u64) -> (r: AxisOrder)
        ensures
            r.wf(),
            r@ == ascending(
                0,
                if len <= u32::MAX {
                    len as nat
                } else {
                    u32::MAX as nat
                },
            ),
            r.fresh() == r@.len(),
    {
        let len32: u32 = if len <= u32::MAX as u64 {
            len as u32
        } else {
            u32::MAX
        };
        let mut runs: Vec<Run> = Vec::new();
        let mut starts: Vec<u64> = Vec::new();
        starts.push(0);
        if len32 != 0 {
            runs.push(Run { data: 0, len: len32 });
            starts.push(len32 as u64);
        }
        let r = AxisOrder { runs, starts, next_fresh: len32 };
        proof {
            if len32 != 0 {
                assert(r.runs@ =~= seq![Run { data: 0, len: len32 }]);
                lemma_expand_one(Run { data: 0, len: len32 });
                assert(r.runs@.subrange(0, 1) =~= r.runs@);
            }
            assert(r.runs@.subrange(0, 0) =~= Seq::<Run>::empty());
            assert(r@ =~= ascending(0, len32 as nat));
        }
        r
    }

    /// Number of display positions.
    pub fn len(&self) -> (n: u64)
        requires
            self.wf(),
        ensures
            n == self@.len(),
    {
        proof {
            self.lemma_len();
        }
        self.starts[self.starts.len() - 1]
    }

    pub fn is_empty(&self) -> (b: bool)
        requires
            self.wf(),
        ensures
            b == (self@.len() == 0),
    {
        self.len() == 0
    }

    /// How many runs the order currently needs: as many as it has maximal
    /// ascending stretches.
    pub fn run_count(&self) -> (n: usize)
        requires
            self.wf(),
        ensures
            n == pieces(self@),
    {
        proof {
            self.lemma_identity();
        }
        self.runs.len()
    }

    /// True when display position equals data index everywhere.
    pub fn is_identity(&self) -> (b: bool)
        requires
            self.wf(),
        ensures
            b == (self@ == ascending(0, self@.len())),
    {
        proof {
            self.lemma_identity();
        }
        self.runs.len() == 0 || (self.runs.len() == 1 && self.runs[0].data == 0)
    }

    /// Approximate heap cost, for the memory readout.
    pub fn heap_bytes(&self) -> (n: usize)
        requires
            self.wf(),
        ensures
            runs_take(pieces(self@), n),
    {
        proof {
            self.lemma_identity();
        }
        let runs: usize = capacity_of(&self.runs);
        let starts: usize = capacity_of(&self.starts);
        assert(room_for(pieces(self@), runs, starts));
        order_bytes(runs, starts)
    }

    /// The run that display position `d` falls in.
    fn run_at(&self, d: u64) -> (i: usize)
        requires
            self.indexed(),
            d < self@.len(),
        ensures
            i < self.runs@.len(),
            start_of(self.runs@, i as int) <= d < start_of(self.runs@, i + 1),
    {
        proof {
            self.lemma_len();
            assert(self.runs@.subrange(0, 0) =~= Seq::<Run>::empty());
        }
        let mut lo: usize = 0;
        let mut hi: usize = self.runs.len();
        assert(self.starts@[0] == start_of(self.runs@, 0));
        while hi - lo > 1
            invariant
                self.indexed(),
                lo < hi <= self.runs@.len(),
                start_of(self.runs@, lo as int) <= d < start_of(self.runs@, hi as int),
            decreases hi - lo,
        {
            let mid: usize = lo + (hi - lo) / 2;
            if self.starts[mid] <= d {
                lo = mid;
            } else {
                hi = mid;
            }
        }
        lo
    }

    /// Data index shown at a display position, or `None` past the end.
    pub fn data_of(&self, display: u64) -> (r: Option<u32>)
        requires
            self.wf(),
        ensures
            r == if display < self@.len() {
                Some(self@[display as int])
            } else {
                None
            },
    {
        if display >= self.len() {
            return None;
        }
        proof {
            self.order_is_a_permutation();
        }
        if self.is_identity() {
            return Some(display as u32);
        }
        let i: usize = self.run_at(display);
        let run = self.runs[i];
        proof {
            lemma_expand_at(self.runs@, i as int, display as int);
            lemma_start_step(self.runs@, i as int);
        }
        let within: u64 = display - self.starts[i];
        Some(run.data + within as u32)
    }

    /// Display position of a data index, or `None` if it is not shown.
    pub fn display_of(&self, data: u32) -> (r: Option<u64>)
        requires
            self.wf(),
        ensures
            match r {
                Some(d) => d < self@.len() && self@[d as int] == data,
                None => !self@.contains(data),
            },
    {
        if self.is_identity() {
            proof {
                self.order_is_a_permutation();
            }
            if (data as u64) < self.len() {
                return Some(data as u64);
            }
            return None;
        }
        let mut i: usize = 0;
        proof {
            assert(self.runs@.subrange(0, 0) =~= Seq::<Run>::empty());
        }
        while i < self.runs.len()
            invariant
                self.wf(),
                i <= self.runs@.len(),
                forall|d: int| 0 <= d < start_of(self.runs@, i as int) ==> self@[d] != data,
            decreases self.runs@.len() - i,
        {
            let run = self.runs[i];
            proof {
                lemma_start_step(self.runs@, i as int);
                lemma_expand_parts(self.runs@, i + 1);
            }
            if data >= run.data && data < run.data + run.len {
                let at: u64 = self.starts[i];
                proof {
                    lemma_expand_at(self.runs@, i as int, at + (data - run.data));
                    self.order_is_a_permutation();
                }
                return Some(at + (data - run.data) as u64);
            }
            proof {
                assert forall|d: int| 0 <= d < start_of(self.runs@, i + 1) implies self@[d]
                    != data by {
                    if d >= start_of(self.runs@, i as int) {
                        lemma_expand_at(self.runs@, i as int, d);
                    }
                }
            }
            i = i + 1;
        }
        proof {
            self.lemma_len();
            assert(self.starts@[self.runs@.len() as int] == start_of(
                self.runs@,
                self.runs@.len() as int,
            ));
        }
        None
    }

    /// Rebuild `starts` from `runs`.
    fn reindex(&mut self)
        requires
            old(self).shaped(),
        ensures
            final(self).runs == old(self).runs,
            final(self).next_fresh == old(self).next_fresh,
            final(self).indexed(),
    {
        let mut starts: Vec<u64> = Vec::with_capacity(self.runs.len());
        let mut acc: u64 = 0;
        let mut i: usize = 0;
        proof {
            assert(self.runs@.subrange(0, 0) =~= Seq::<Run>::empty());
            lemma_pigeonhole(self@, self.next_fresh as int);
        }
        while i < self.runs.len()
            invariant
                i <= self.runs@.len(),
                self@.len() <= u32::MAX,
                starts@.len() == i,
                acc as nat == start_of(self.runs@, i as int),
                forall|k: int|
                    0 <= k < i ==> (#[trigger] starts@[k]) as nat == start_of(self.runs@, k),
            decreases self.runs@.len() - i,
        {
            starts.push(acc);
            proof {
                lemma_start_step(self.runs@, i as int);
                lemma_expand_parts(self.runs@, i + 1);
            }
            acc = acc + self.runs[i].len as u64;
            i = i + 1;
        }
        starts.push(acc);
        self.starts = starts;
    }

    /// Merge runs whose data indices are adjacent.
    fn coalesce(&mut self)
        requires
            old(self).shaped(),
        ensures
            final(self)@ == old(self)@,
            final(self).next_fresh == old(self).next_fresh,
            final(self).shaped(),
            apart(final(self).runs@),
    {
        let mut merged: Vec<Run> = Vec::with_capacity(self.runs.len());
        let ghost runs = self.runs@;
        let mut i: usize = 0;
        proof {
            assert(runs.subrange(0, 0) =~= Seq::<Run>::empty());
        }
        while i < self.runs.len()
            invariant
                runs == self.runs@,
                solid(runs),
                i <= runs.len(),
                expand(merged@) == expand(runs.subrange(0, i as int)),
                solid(merged@),
                apart(merged@),
                merged@.len() <= i,
            decreases runs.len() - i,
        {
            let r = self.runs[i];
            let n: usize = merged.len();
            let ghost before = merged@;
            let ghost done = runs.subrange(0, i + 1);
            proof {
                assert(done.drop_last() =~= runs.subrange(0, i as int));
                assert(done.last() == r);
            }
            if n > 0 && merged[n - 1].data + merged[n - 1].len == r.data {
                let prev = merged[n - 1];
                let joined = Run { data: prev.data, len: prev.len + r.len };
                merged.set(n - 1, joined);
                proof {
                    let init = before.drop_last();
                    assert(merged@.drop_last() =~= init);
                    assert(expand(merged@) =~= expand(done));
                    assert forall|a: int, b: int|
                        0 <= a && b == a + 1 && b < merged@.len() implies (#[trigger] merged@[a]).data
                        + merged@[a].len != (#[trigger] merged@[b]).data by {
                        assert(before[a].data + before[a].len != before[b].data);
                    }
                }
            } else {
                merged.push(r);
                proof {
                    assert(merged@.drop_last() =~= before);
                    assert(expand(merged@) =~= expand(done));
                    assert forall|a: int, b: int|
                        0 <= a && b == a + 1 && b < merged@.len() implies (#[trigger] merged@[a]).data
                        + merged@[a].len != (#[trigger] merged@[b]).data by {
                        if b < n {
                            assert(before[a].data + before[a].len != before[b].data);
                        }
                    }
                }
            }
            i = i + 1;
        }
        proof {
            assert(runs.subrange(0, runs.len() as int) =~= runs);
        }
        self.runs = merged;
    }

    /// Split so that a run boundary exists exactly at display position `at`,
    /// and return the index of the run starting there.
    fn split_at(&mut self, at: u64) -> (i: usize)
        requires
            old(self).shaped(),
            old(self).indexed(),
            at <= old(self)@.len(),
        ensures
            final(self)@ == old(self)@,
            final(self).next_fresh == old(self).next_fresh,
            final(self).shaped(),
            final(self).indexed(),
            i <= final(self).runs@.len(),
            start_of(final(self).runs@, i as int) == at,
            forall|k: int|
                0 <= k <= old(self).runs@.len() && start_of(old(self).runs@, k) <= at ==> k
                    <= final(self).runs@.len() && #[trigger] start_of(final(self).runs@, k)
                    == start_of(old(self).runs@, k),
    {
        proof {
            self.lemma_len();
        }
        if at >= self.starts[self.starts.len() - 1] {
            assert(self.starts@[self.runs@.len() as int] == start_of(
                self.runs@,
                self.runs@.len() as int,
            ));
            return self.runs.len();
        }
        let i: usize = self.run_at(at);
        let offset: u64 = at - self.starts[i];
        if offset == 0 {
            return i;
        }
        let run = self.runs[i];
        let ghost before = self.runs@;
        proof {
            lemma_start_step(before, i as int);
        }
        let left = Run { data: run.data, len: offset as u32 };
        let right = Run { data: run.data + offset as u32, len: run.len - offset as u32 };
        self.runs.set(i, left);
        self.runs.insert(i + 1, right);
        proof {
            lemma_expand_cut(before, i as int, left, right);
            assert(self.runs@ =~= before.update(i as int, left).insert(i + 1, right));
            assert forall|k: int| 0 <= k < self.runs@.len() implies (#[trigger] self.runs@[k]).len
                > 0 && self.runs@[k].data + self.runs@[k].len <= u32::MAX by {
                if k > i + 1 {
                    assert(self.runs@[k] == before[k - 1]);
                }
            }
            assert forall|k: int|
                0 <= k <= before.len() && start_of(before, k) <= at implies #[trigger] start_of(
                self.runs@,
                k,
            ) == start_of(before, k) by {
                if k > i {
                    lemma_start_mono(before, i + 1, k);
                }
                assert(self.runs@.subrange(0, k) =~= before.subrange(0, k));
            }
        }
        self.reindex();
        i + 1
    }

    /// Refuse an edit that would fragment the order past the cap.
    fn check_runs(&self, extra: usize) -> (r: Result<(), OrderError>)
        requires
            self.wf(),
            extra <= 3,
        ensures
            r == fragmentation(self@, extra),
    {
        proof {
            self.lemma_identity();
            self.order_is_a_permutation();
            lemma_pieces_bounded(self@);
        }
        if self.runs.len() > Self::MAX_RUNS - extra {
            return Err(
                OrderError::TooFragmented {
                    runs: self.runs.len().saturating_add(extra),
                    limit: Self::MAX_RUNS,
                },
            );
        }
        Ok(())
    }

    /// Whether a move is allowed, and if not, why.
    pub open spec fn move_outcome(s: Seq<u32>, from: u64, count: u64, to: u64) -> Result<
        (),
        OrderError,
    > {
        if count == 0 || from == to {
            Ok(())
        } else if from + count > s.len() {
            Err(OrderError::OutOfRange { at: from, len: s.len() as u64 })
        } else if to > s.len() {
            Err(OrderError::OutOfRange { at: to, len: s.len() as u64 })
        } else if to > from && to < from + count {
            Err(OrderError::DestinationInsideSpan)
        } else {
            fragmentation(s, 3)
        }
    }

    /// Move `count` entries starting at display position `from` so that they
    /// begin at display position `to` in the order as it stands before the
    /// move. Costs `O(runs)`, whatever `count` is.
    pub fn move_span(&mut self, from: u64, count: u64, to: u64) -> (r: Result<(), OrderError>)
        requires
            old(self).wf(),
            count != 0 && from != to ==> from + count <= u64::MAX,
        ensures
            final(self).wf(),
            final(self).fresh() == old(self).fresh(),
            r == Self::move_outcome(old(self)@, from, count, to),
            final(self)@ == if r is Ok && count != 0 && from != to {
                moved(old(self)@, from as int, count as int, to as int)
            } else {
                old(self)@
            },
    {
        if count == 0 || from == to {
            return Ok(());
        }
        let len: u64 = self.len();
        if from + count > len {
            return Err(OrderError::OutOfRange { at: from, len });
        }
        if to > len {
            return Err(OrderError::OutOfRange { at: to, len });
        }
        if to > from && to < from + count {
            return Err(OrderError::DestinationInsideSpan);
        }
        let cap = self.check_runs(3);
        if cap.is_err() {
            return cap;
        }
        let ghost s = self@;
        let start_i: usize = self.split_at(from);
        let end_i: usize = self.split_at(from + count);
        assert(start_of(self.runs@, start_i as int) == from);
        let block: Vec<Run> = self.cut_out(start_i, end_i);
        self.reindex();
        let ghost rest = removed(s, from as int, count as int);
        assert(self@ == rest);

        // The destination, in the order with the span removed.
        let dest: u64 = if to > from {
            to - count
        } else {
            to
        };
        let insert_i: usize = self.split_at(dest);
        proof {
            lemma_moved_distinct(s, from as int, count as int, to as int);
            assert forall|i: int| 0 <= i < s.len() implies moved(
                s,
                from as int,
                count as int,
                to as int,
            )[i] < self.next_fresh by {
                assert(s.contains(moved(s, from as int, count as int, to as int)[i]));
            }
        }
        self.put_in(insert_i, block);
        assert(self@ == moved(s, from as int, count as int, to as int));
        self.coalesce();
        self.reindex();
        Ok(())
    }

    /// Takes runs `from..to` out and returns them.
    fn cut_out(&mut self, from: usize, to: usize) -> (block: Vec<Run>)
        requires
            old(self).shaped(),
            old(self).indexed(),
            from <= old(self).runs@.len(),
            to <= old(self).runs@.len(),
            start_of(old(self).runs@, from as int) <= start_of(old(self).runs@, to as int),
        ensures
            final(self).shaped(),
            final(self).next_fresh == old(self).next_fresh,
            solid(block@),
            ({
                let a = start_of(old(self).runs@, from as int) as int;
                let b = start_of(old(self).runs@, to as int) as int;
                &&& expand(block@) == old(self)@.subrange(a, b)
                &&& final(self)@ == removed(old(self)@, a, b - a)
            }),
    {
        let ghost runs = self.runs@;
        let ghost s = self@;
        let ghost a = start_of(runs, from as int) as int;
        let ghost b = start_of(runs, to as int) as int;
        proof {
            if to < from {
                lemma_start_mono(runs, to as int, from as int);
            }
            lemma_expand_parts(runs, from as int);
            lemma_expand_parts(runs, to as int);
            lemma_start_mono(runs, from as int, to as int);
        }
        let mut tail: Vec<Run> = self.runs.split_off(to);
        let ghost head = self.runs@;
        let block: Vec<Run> = self.runs.split_off(from);
        proof {
            assert(head.subrange(0, from as int) =~= runs.subrange(0, from as int));
            lemma_expand_parts(head, from as int);
            assert(expand(block@) =~= s.subrange(a, b));
            lemma_expand_append(self.runs@, tail@);
        }
        let ghost kept = self.runs@;
        let ghost tail0 = tail@;
        self.runs.append(&mut tail);
        proof {
            assert(self@ =~= removed(s, a, b - a));
            lemma_distinct_edits(s, a, b - a, Seq::empty());
            assert forall|k: int| 0 <= k < self.runs@.len() implies (#[trigger] self.runs@[k]).len
                > 0 && self.runs@[k].data + self.runs@[k].len <= u32::MAX by {
                if k < from {
                    assert(self.runs@[k] == runs[k]);
                } else {
                    assert(self.runs@[k] == runs[k - from + to]);
                }
            }
            assert forall|k: int| 0 <= k < block@.len() implies (#[trigger] block@[k]).len > 0
                && block@[k].data + block@[k].len <= u32::MAX by {
                assert(block@[k] == runs[from + k]);
            }
        }
        block
    }

    /// Puts `block` in front of run `at`.
    fn put_in(&mut self, at: usize, block: Vec<Run>)
        requires
            old(self).shaped(),
            at <= old(self).runs@.len(),
            solid(block@),
            ({
                let t = inserted(
                    old(self)@,
                    start_of(old(self).runs@, at as int) as int,
                    expand(block@),
                );
                &&& t.no_duplicates()
                &&& forall|i: int| 0 <= i < t.len() ==> t[i] < old(self).next_fresh
            }),
        ensures
            final(self).shaped(),
            final(self).next_fresh == old(self).next_fresh,
            final(self)@ == inserted(
                old(self)@,
                start_of(old(self).runs@, at as int) as int,
                expand(block@),
            ),
    {
        let ghost runs = self.runs@;
        let ghost s = self@;
        let mut block = block;
        let ghost b = block@;
        proof {
            lemma_expand_parts(runs, at as int);
        }
        let mut tail: Vec<Run> = self.runs.split_off(at);
        let ghost head = self.runs@;
        let ghost t = tail@;
        self.runs.append(&mut block);
        self.runs.append(&mut tail);
        proof {
            assert(self.runs@ =~= head + b + t);
            lemma_expand_append(head + b, t);
            lemma_expand_append(head, b);
            assert(self@ =~= inserted(s, start_of(runs, at as int) as int, expand(b)));
            assert forall|k: int| 0 <= k < self.runs@.len() implies (#[trigger] self.runs@[k]).len
                > 0 && self.runs@[k].data + self.runs@[k].len <= u32::MAX by {
                if k < at {
                    assert(self.runs@[k] == runs[k]);
                } else if k < at + b.len() {
                    assert(self.runs@[k] == b[k - at]);
                } else {
                    assert(self.runs@[k] == runs[k - b.len()]);
                }
            }
        }
    }

    /// Whether an insert is allowed, and if not, why.
    pub open spec fn insert_outcome(s: Seq<u32>, at: u64, count: u64) -> Result<(), OrderError> {
        if count == 0 {
            Ok(())
        } else if at > s.len() {
            Err(OrderError::OutOfRange { at, len: s.len() as u64 })
        } else if fragmentation(s, 2) is Err {
            fragmentation(s, 2)
        } else if count > u32::MAX {
            Err(OrderError::OutOfRange { at: count, len: s.len() as u64 })
        } else {
            Ok(())
        }
    }

    /// Insert `count` brand-new entries at display position `at`, returning the
    /// first fresh data index allocated. No existing data index shifts.
    pub fn insert_fresh(&mut self, at: u64, count: u64) -> (r: Result<u32, OrderError>)
        requires
            old(self).wf(),
            Self::insert_outcome(old(self)@, at, count) is Ok ==> old(self).fresh() + count
                <= u32::MAX,
        ensures
            final(self).wf(),
            match Self::insert_outcome(old(self)@, at, count) {
                Ok(_) => {
                    &&& r == Ok::<u32, OrderError>(old(self).fresh() as u32)
                    &&& final(self).fresh() == old(self).fresh() + count
                    &&& final(self)@ == if count == 0 {
                        old(self)@
                    } else {
                        inserted(
                            old(self)@,
                            at as int,
                            ascending(old(self).fresh(), count as nat),
                        )
                    }
                },
                Err(e) => {
                    &&& r == Err::<u32, OrderError>(e)
                    &&& final(self).fresh() == old(self).fresh()
                    &&& final(self)@ == old(self)@
                },
            },
    {
        if count == 0 {
            return Ok(self.next_fresh);
        }
        let len: u64 = self.len();
        if at > len {
            return Err(OrderError::OutOfRange { at, len });
        }
        match self.check_runs(2) {
            Err(e) => {
                return Err(e);
            },
            Ok(_) => {},
        }
        let data: u32 = self.next_fresh;
        if count > u32::MAX as u64 {
            return Err(OrderError::OutOfRange { at: count, len });
        }
        let count32: u32 = count as u32;
        let ghost s = self@;
        let i: usize = self.split_at(at);
        self.next_fresh = data + count32;
        let mut block: Vec<Run> = Vec::new();
        block.push(Run { data, len: count32 });
        proof {
            assert(block@ =~= seq![Run { data, len: count32 }]);
            lemma_expand_one(Run { data, len: count32 });
            lemma_distinct_edits(s, at as int, 0, ascending(data as int, count as nat));
        }
        self.put_in(i, block);
        self.coalesce();
        self.reindex();
        Ok(data)
    }

    /// Whether a removal is allowed, and if not, why.
    pub open spec fn remove_outcome(s: Seq<u32>, at: u64, count: u64) -> Result<(), OrderError> {
        if count == 0 {
            Ok(())
        } else if at + count > s.len() {
            Err(OrderError::OutOfRange { at, len: s.len() as u64 })
        } else {
            fragmentation(s, 2)
        }
    }

    /// Remove `count` entries at display position `at`. The data is not erased:
    /// it simply stops being addressed.
    pub fn remove(&mut self, at: u64, count: u64) -> (r: Result<(), OrderError>)
        requires
            old(self).wf(),
            at + count <= u64::MAX,
        ensures
            final(self).wf(),
            final(self).fresh() == old(self).fresh(),
            r == Self::remove_outcome(old(self)@, at, count),
            final(self)@ == if r is Ok && count != 0 {
                removed(old(self)@, at as int, count as int)
            } else {
                old(self)@
            },
    {
        if count == 0 {
            return Ok(());
        }
        let len: u64 = self.len();
        if at + count > len {
            return Err(OrderError::OutOfRange { at, len });
        }
        let cap = self.check_runs(2);
        if cap.is_err() {
            return cap;
        }
        let start_i: usize = self.split_at(at);
        let end_i: usize = self.split_at(at + count);
        assert(start_of(self.runs@, start_i as int) == at);
        let gone: Vec<Run> = self.cut_out(start_i, end_i);
        self.coalesce();
        self.reindex();
        Ok(())
    }

    /// Where the entries that bring an axis of `have` entries to `len` begin:
    /// past everything handed out.
    pub open spec fn growth_start(fresh: int, have: int, len: int) -> int {
        let want = if len <= u32::MAX {
            len
        } else {
            u32::MAX as int
        };
        let short = want - (len - have) % 0x1_0000_0000;
        if short > fresh {
            short
        } else {
            fresh
        }
    }

    /// The axis brought up to `len` entries, or to as many as can be numbered.
    pub open spec fn grown(s: Seq<u32>, fresh: int, len: u64) -> Seq<u32> {
        let want = if len <= u32::MAX {
            len as nat
        } else {
            u32::MAX as nat
        };
        if len <= s.len() {
            s
        } else if s == ascending(0, s.len()) {
            ascending(0, want)
        } else {
            s + ascending(
                Self::growth_start(fresh, s.len() as int, len as int),
                (want - s.len()) as nat,
            )
        }
    }

    /// The next data index to hand out once the axis is brought up to `len`.
    pub open spec fn grown_fresh(s: Seq<u32>, fresh: int, len: u64) -> int {
        let want = if len <= u32::MAX {
            len as int
        } else {
            u32::MAX as int
        };
        if len <= s.len() {
            fresh
        } else if s == ascending(0, s.len()) {
            if want > fresh {
                want
            } else {
                fresh
            }
        } else {
            Self::growth_start(fresh, s.len() as int, len as int) + want - s.len()
        }
    }

    /// Grow the axis to at least `len` display positions. An untouched axis
    /// stays the identity; otherwise the new entries show data indices that
    /// have never been handed out.
    pub fn ensure_len(&mut self, len: u64)
        requires
            old(self).wf(),
            len > old(self)@.len() && old(self)@ != ascending(0, old(self)@.len())
                ==> Self::growth_start(old(self).fresh(), old(self)@.len() as int, len as int) + (if len
                <= u32::MAX {
                len as int
            } else {
                u32::MAX as int
            } - old(self)@.len()) <= u32::MAX,
        ensures
            final(self).wf(),
            final(self)@ == Self::grown(old(self)@, old(self).fresh(), len),
            final(self).fresh() == Self::grown_fresh(old(self)@, old(self).fresh(), len),
    {
        let have: u64 = self.len();
        if len <= have {
            return;
        }
        proof {
            self.order_is_a_permutation();
        }
        let want: u32 = if len <= u32::MAX as u64 {
            len as u32
        } else {
            u32::MAX
        };
        let ghost s = self@;
        let add: u32 = want - have as u32;
        if self.is_identity() {
            let mut runs: Vec<Run> = Vec::new();
            runs.push(Run { data: 0, len: want });
            self.runs = runs;
            if want > self.next_fresh {
                self.next_fresh = want;
            }
            proof {
                assert(self.runs@ =~= seq![Run { data: 0, len: want }]);
                lemma_expand_one(Run { data: 0, len: want });
            }
        } else {
            let short: u32 = want.saturating_sub(((len - have) % 0x1_0000_0000) as u32);
            let start: u32 = if self.next_fresh < short {
                short
            } else {
                self.next_fresh
            };
            assert(start == Self::growth_start(self.next_fresh as int, have as int, len as int));
            if add > 0 {
                let ghost before = self.runs@;
                self.runs.push(Run { data: start, len: add });
                proof {
                    assert(self.runs@ =~= before + seq![Run { data: start, len: add }]);
                    lemma_expand_append(before, seq![Run { data: start, len: add }]);
                    lemma_expand_one(Run { data: start, len: add });
                }
                self.next_fresh = start + add;
            }
            assert(self@ =~= Self::grown(s, old(self).next_fresh as int, len));
        }
        self.coalesce();
        self.reindex();
    }

    /// Map a contiguous display span to the data spans it covers, as
    /// `(data_start, count)` pairs in display order.
    ///
    /// The pairs are as few as they can be: an unreordered axis always hands
    /// back a single one.
    pub fn data_spans(&self, at: u64, count: u64) -> (out: Vec<(u32, u32)>)
        requires
            self.wf(),
            count != 0 && self@ != ascending(0, self@.len()) ==> at + count <= u64::MAX,
        ensures
            flatten(out@) == if at < self@.len() {
                self@.subrange(
                    at as int,
                    if at + count <= self@.len() {
                        at + count
                    } else {
                        self@.len() as int
                    },
                )
            } else {
                Seq::empty()
            },
            forall|i: int| 0 <= i < out@.len() ==> (#[trigger] out@[i]).1 > 0,
            forall|i: int, j: int|
                0 <= i && j == i + 1 && j < out@.len() ==> (#[trigger] out@[i]).0 + out@[i].1 != (
                #[trigger] out@[j]).0,
    {
        let mut out: Vec<(u32, u32)> = Vec::new();
        let len: u64 = self.len();
        if count == 0 || at >= len {
            if at < len {
                assert(self@.subrange(at as int, at as int) =~= Seq::<u32>::empty());
            }
            return out;
        }
        let end: u64 = if count < len - at {
            at + count
        } else {
            len
        };
        if self.is_identity() {
            proof {
                self.order_is_a_permutation();
            }
            out.push((at as u32, (end - at) as u32));
            proof {
                reveal_with_fuel(flatten, 2);
                assert(out@.drop_last() =~= Seq::<(u32, u32)>::empty());
                assert(flatten(out@) =~= self@.subrange(at as int, end as int));
            }
            return out;
        }
        let mut pos: u64 = at;
        let ghost mut next: int = 0;
        proof {
            assert(self@.subrange(at as int, at as int) =~= Seq::<u32>::empty());
        }
        while pos < end
            invariant
                self.wf(),
                at <= pos <= end <= self@.len(),
                flatten(out@) == self@.subrange(at as int, pos as int),
                forall|i: int| 0 <= i < out@.len() ==> (#[trigger] out@[i]).1 > 0,
                forall|i: int, j: int|
                    0 <= i && j == i + 1 && j < out@.len() ==> (#[trigger] out@[i]).0 + out@[i].1
                        != (#[trigger] out@[j]).0,
                out@.len() > 0 && pos < end ==> 0 < next < self.runs@.len() && pos == start_of(
                    self.runs@,
                    next,
                ) && out@.last().0 + out@.last().1 == self.runs@[next - 1].data + self.runs@[next
                    - 1].len,
            decreases end - pos,
        {
            let i: usize = self.run_at(pos);
            let run = self.runs[i];
            proof {
                lemma_start_step(self.runs@, i as int);
                lemma_expand_at(self.runs@, i as int, pos as int);
                assert(start_of(self.runs@, i as int) == self.starts@[i as int]);
                if out@.len() > 0 {
                    if next < i {
                        lemma_start_mono(self.runs@, next + 1, i as int);
                        lemma_start_step(self.runs@, next);
                    }
                    if i < next {
                        lemma_start_mono(self.runs@, i + 1, next);
                    }
                    assert(next == i);
                    assert(self.runs@[i - 1].data + self.runs@[i - 1].len
                        != self.runs@[i as int].data);
                }
            }
            let within: u64 = pos - self.starts[i];
            let left: u64 = run.len as u64 - within;
            let take: u64 = if left < end - pos {
                left
            } else {
                end - pos
            };
            let ghost prev = out@;
            out.push((run.data + within as u32, take as u32));
            proof {
                assert(out@.drop_last() =~= prev);
                assert forall|k: int| pos <= k < pos + take implies self@[k] == (run.data + within
                    + (k - pos)) as u32 by {
                    lemma_expand_at(self.runs@, i as int, k);
                }
                assert(flatten(out@) =~= self@.subrange(at as int, pos + take));
                next = i + 1;
                if pos + take < end {
                    assert(take == left);
                    if next == self.runs@.len() {
                        self.lemma_len();
                        assert(self.starts@[next] == start_of(self.runs@, next));
                    }
                }
            }
            pos = pos + take;
        }
        out
    }

    /// An order of exactly `runs` runs: the data indices from `runs` down to 1,
    /// so that no two neighbours join. Reaching the cap through real moves is
    /// quadratic; this reaches it at once.
    pub fn fragmented_for_test(runs: usize) -> (r: AxisOrder)
        requires
            runs < u32::MAX,
        ensures
            r.wf(),
            r@ == Seq::new(runs as nat, |i: int| (runs - i) as u32),
            pieces(r@) == runs,
            r.fresh() == runs + 1,
    {
        let mut list: Vec<Run> = Vec::new();
        let mut i: usize = 0;
        while i < runs
            invariant
                i <= runs < u32::MAX,
                list@.len() == i,
                forall|k: int|
                    0 <= k < i ==> (#[trigger] list@[k]).data == runs - k && list@[k].len == 1,
                expand(list@) == Seq::new(i as nat, |k: int| (runs - k) as u32),
            decreases runs - i,
        {
            let ghost before = list@;
            list.push(Run { data: (runs - i) as u32, len: 1 });
            proof {
                assert(list@.drop_last() =~= before);
                assert(expand(list@) =~= Seq::new((i + 1) as nat, |k: int| (runs - k) as u32));
            }
            i = i + 1;
        }
        let mut r = AxisOrder { runs: list, starts: Vec::new(), next_fresh: runs as u32 + 1 };
        r.reindex();
        proof {
            r.lemma_identity();
        }
        r
    }
}

/// There are no more stretches than entries.
proof fn lemma_pieces_bounded(s: Seq<u32>)
    ensures
        pieces(s) <= s.len(),
    decreases s.len(),
{
    if s.len() > 0 {
        lemma_pieces_bounded(s.drop_last());
    }
}

/// Whether an edit of `s` that can add `extra` runs is refused for that.
pub open spec fn fragmentation(s: Seq<u32>, extra: usize) -> Result<(), OrderError> {
    if pieces(s) + extra > AxisOrder::MAX_RUNS {
        Err(
            OrderError::TooFragmented {
                runs: if pieces(s) + extra <= usize::MAX {
                    (pieces(s) + extra) as usize
                } else {
                    usize::MAX
                },
                limit: AxisOrder::MAX_RUNS,
            },
        )
    } else {
        Ok(())
    }
}

/// Joining two orders merges at most one pair of stretches.
proof fn lemma_pieces_join(a: Seq<u32>, b: Seq<u32>)
    ensures
        pieces(a + b) <= pieces(a) + pieces(b) <= pieces(a + b) + 1,
        b.len() == 0 ==> pieces(a + b) == pieces(a),
    decreases b.len(),
{
    if b.len() == 0 {
        assert(a + b =~= a);
    } else {
        let c = b.drop_last();
        lemma_pieces_join(a, c);
        assert((a + b).drop_last() =~= a + c);
        if b.len() == 1 {
            assert(pieces(c) == 0);
            assert(pieces(b) == 1);
            assert(a + c =~= a);
        } else {
            assert((a + b)[(a + b).len() - 2] == b[b.len() - 2]);
        }
    }
}

/// Putting a block in adds its own runs and at most one more.
pub proof fn an_insert_adds_few_runs(s: Seq<u32>, at: int, block: Seq<u32>)
    requires
        0 <= at <= s.len(),
    ensures
        pieces(inserted(s, at, block)) <= pieces(s) + pieces(block) + 1,
{
    let x = s.subrange(0, at);
    let y = s.subrange(at, s.len() as int);
    assert(s =~= x + y);
    lemma_pieces_join(x, y);
    lemma_pieces_join(x + block, y);
    lemma_pieces_join(x, block);
}

/// A removal adds at most one run.
pub proof fn a_removal_adds_few_runs(s: Seq<u32>, at: int, count: int)
    requires
        0 <= at,
        0 < count,
        at + count <= s.len(),
    ensures
        pieces(removed(s, at, count)) <= pieces(s) + 1,
{
    let head = s.subrange(0, at);
    let block = s.subrange(at, at + count);
    let tail = s.subrange(at + count, s.len() as int);
    assert(s =~= (head + block) + tail);
    lemma_pieces_join(head + block, tail);
    lemma_pieces_join(head, block);
    lemma_pieces_join(head, tail);
    lemma_pieces_some(block);
}

/// A move adds at most three runs, however many entries it moves: runs grow
/// with the edits made, never with the axis.
pub proof fn a_move_adds_few_runs(s: Seq<u32>, from: int, count: int, to: int)
    requires
        0 <= from,
        0 < count,
        from + count <= s.len(),
        0 <= to <= s.len(),
        to <= from || from + count <= to,
    ensures
        pieces(moved(s, from, count, to)) <= pieces(s) + 3,
{
    let n = s.len() as int;
    let block = s.subrange(from, from + count);
    if to > from {
        lemma_four_parts(
            s.subrange(0, from),
            block,
            s.subrange(from + count, to),
            s.subrange(to, n),
        );
        assert(moved(s, from, count, to) =~= ((s.subrange(0, from) + s.subrange(from + count, to))
            + block) + s.subrange(to, n));
        assert(s =~= ((s.subrange(0, from) + block) + s.subrange(from + count, to)) + s.subrange(
            to,
            n,
        ));
    } else {
        lemma_four_parts(
            s.subrange(0, to),
            s.subrange(to, from),
            block,
            s.subrange(from + count, n),
        );
        assert(moved(s, from, count, to) =~= ((s.subrange(0, to) + block) + s.subrange(to, from))
            + s.subrange(from + count, n));
        assert(s =~= ((s.subrange(0, to) + s.subrange(to, from)) + block) + s.subrange(
            from + count,
            n,
        ));
    }
}

/// Swapping the two middle parts of four adds at most three runs.
proof fn lemma_four_parts(a: Seq<u32>, b: Seq<u32>, c: Seq<u32>, d: Seq<u32>)
    ensures
        pieces(((a + c) + b) + d) <= pieces(((a + b) + c) + d) + 3,
{
    lemma_pieces_join((a + b) + c, d);
    lemma_pieces_join(a + b, c);
    lemma_pieces_join(a, b);
    lemma_pieces_join((a + c) + b, d);
    lemma_pieces_join(a + c, b);
    lemma_pieces_join(a, c);
}

proof fn lemma_pieces_some(s: Seq<u32>)
    requires
        s.len() > 0,
    ensures
        pieces(s) >= 1,
    decreases s.len(),
{
    if s.len() > 1 {
        lemma_pieces_some(s.drop_last());
    }
}

/// Moving a block back where it came from restores the order.
pub proof fn a_move_and_its_inverse_restore_the_order(
    s: Seq<u32>,
    from: int,
    count: int,
    to: int,
)
    requires
        0 <= from,
        0 < count,
        from + count <= s.len(),
        0 <= to <= s.len(),
        to <= from || from + count <= to,
    ensures
        ({
            let now = if to > from {
                to - count
            } else {
                to
            };
            let back = if to > from {
                from
            } else {
                from + count
            };
            moved(moved(s, from, count, to), now, count, back) == s
        }),
{
    let now = if to > from {
        to - count
    } else {
        to
    };
    let back = if to > from {
        from
    } else {
        from + count
    };
    let m = moved(s, from, count, to);
    let block = s.subrange(from, from + count);
    let rest = removed(s, from, count);
    assert(m.subrange(now, now + count) =~= block);
    assert(removed(m, now, count) =~= rest);
    assert(inserted(rest, from, block) =~= s);
}

/// Removing what was just inserted restores the order.
pub proof fn an_insert_and_its_removal_restore_the_order(s: Seq<u32>, at: int, block: Seq<u32>)
    requires
        0 <= at <= s.len(),
    ensures
        removed(inserted(s, at, block), at, block.len() as int) == s,
{
    assert(removed(inserted(s, at, block), at, block.len() as int) =~= s);
}

/// An untouched axis is a single run at any size.
pub proof fn identity_is_one_run(n: nat)
    requires
        0 < n <= u32::MAX,
    ensures
        pieces(ascending(0, n)) == 1,
{
    lemma_pieces_all_ascending(n);
}

/// What a structural edit did to one axis, as a map over display positions:
/// the thing that used to be at position `n` — where is it now, if anywhere?
#[derive(Clone, Copy, Debug, PartialEq, Eq, Structural)]
pub enum AxisShift {
    /// `count` fresh entries appeared at display position `at`.
    Insert { at: u32, count: u32 },
    /// `count` entries were removed starting at display position `at`.
    Delete { at: u32, count: u32 },
}

/// `a + b`, or the largest position if that is further out.
pub open spec fn clamped_sum(a: u32, b: u32) -> u32 {
    if a + b <= u32::MAX {
        (a + b) as u32
    } else {
        u32::MAX
    }
}

impl AxisShift {
    pub open spec fn map_spec(self, old: u32) -> Option<u32> {
        match self {
            AxisShift::Insert { at, count } => Some(
                if old >= at {
                    clamped_sum(old, count)
                } else {
                    old
                },
            ),
            AxisShift::Delete { at, count } => if old < at {
                Some(old)
            } else if old < clamped_sum(at, count) {
                None
            } else {
                Some((old - count) as u32)
            },
        }
    }

    /// Where the entry formerly at display position `old` is now, or `None`
    /// when the edit deleted it.
    pub fn map(&self, old: u32) -> (r: Option<u32>)
        ensures
            r == self.map_spec(old),
    {
        match *self {
            AxisShift::Insert { at, count } => Some(
                if old >= at {
                    old.saturating_add(count)
                } else {
                    old
                },
            ),
            AxisShift::Delete { at, count } => {
                let end: u32 = at.saturating_add(count);
                if old < at {
                    Some(old)
                } else if old < end {
                    None
                } else {
                    Some(old - count)
                }
            },
        }
    }

    /// Where the span `first..=last` is: from where its lowest surviving
    /// position is to where its highest is.
    pub open spec fn map_span_spec(self, first: u32, last: u32) -> Option<(u32, u32)> {
        if first > last {
            None
        } else {
            match self {
                AxisShift::Insert { at, count } => Some(
                    (
                        if first >= at {
                            clamped_sum(first, count)
                        } else {
                            first
                        },
                        if last >= at {
                            clamped_sum(last, count)
                        } else {
                            last
                        },
                    ),
                ),
                AxisShift::Delete { at, count } => {
                    let end = clamped_sum(at, count);
                    let f: int = if first < at {
                        first as int
                    } else if first < end {
                        at as int
                    } else {
                        first - count
                    };
                    let l: int = if last < at {
                        last as int
                    } else if last < end {
                        at - 1
                    } else {
                        last - count
                    };
                    if f <= l {
                        Some((f as u32, l as u32))
                    } else {
                        None
                    }
                },
            }
        }
    }

    /// Where the span `first..=last` ends up, or `None` when the edit removed
    /// every position in it. An insert inside a span grows it; a delete that
    /// eats part of a span shrinks it to the survivors.
    pub fn map_span(&self, first: u32, last: u32) -> (r: Option<(u32, u32)>)
        ensures
            r == self.map_span_spec(first, last),
    {
        if first > last {
            return None;
        }
        match *self {
            AxisShift::Insert { at, count } => {
                let f: u32 = if first >= at {
                    first.saturating_add(count)
                } else {
                    first
                };
                let l: u32 = if last >= at {
                    last.saturating_add(count)
                } else {
                    last
                };
                Some((f, l))
            },
            AxisShift::Delete { at, count } => {
                let end: u32 = at.saturating_add(count);
                // Lowest surviving position at or after `first`.
                let f: u32 = if first < at {
                    first
                } else if first < end {
                    at
                } else {
                    first - count
                };
                // Highest surviving position at or before `last`.
                let l: u32 = if last < at {
                    last
                } else if last < end {
                    if at == 0 {
                        return None;
                    }
                    at - 1
                } else {
                    last - count
                };
                if f <= l {
                    Some((f, l))
                } else {
                    None
                }
            },
        }
    }

    /// Undoing an insert puts every position back exactly, as long as the
    /// insert pushed none past the last position there is.
    pub proof fn insert_then_delete_is_the_identity(at: u32, count: u32, old: u32)
        requires
            old >= at ==> old + count <= u32::MAX,
        ensures
            ({
                let there = (AxisShift::Insert { at, count }).map_spec(old);
                there is Some && (AxisShift::Delete { at, count }).map_spec(there->0) == Some(old)
            }),
    {
    }

    /// A span is mapped to the tightest span around where its positions go: it
    /// is gone exactly when all of them are, every survivor lands inside, and
    /// its two ends are where its lowest and highest survivors land.
    pub proof fn a_span_follows_its_positions(self, first: u32, last: u32, old: u32)
        requires
            first <= old <= last,
            self matches AxisShift::Delete { at, count } ==> at + count <= u32::MAX,
        ensures
            self.map_spec(old) matches Some(q) ==> (self.map_span_spec(first, last) matches Some(
                t,
            ) && t.0 <= q <= t.1),
            self.map_span_spec(first, last) is None ==> self.map_spec(old) is None,
            self.map_spec(first) is Some ==> (self.map_span_spec(first, last) matches Some(t)
                && self.map_spec(first) == Some(t.0)),
            self.map_spec(last) is Some ==> (self.map_span_spec(first, last) matches Some(t)
                && self.map_spec(last) == Some(t.1)),
    {
    }
}

/// Both axes of one sheet's display order. `None` is the untouched axis.
#[derive(Debug, PartialEq, Eq)]
pub struct SheetOrder {
    pub rows: Option<AxisOrder>,
    pub cols: Option<AxisOrder>,
}

/// There is room for so many runs, and for where each begins.
pub open spec fn room_for(pieces: nat, runs: usize, starts: usize) -> bool {
    runs >= pieces && starts >= pieces
}

/// What an order of so many runs takes: the bytes of what there is room for.
pub open spec fn runs_take(pieces: nat, n: usize) -> bool {
    exists|runs: usize, starts: usize| #[trigger]
        room_for(pieces, runs, starts) && n == at_most_max(8 * runs + 8 * starts)
}

/// What an axis takes: nothing while it is untouched.
pub open spec fn axis_takes(axis: Option<AxisOrder>, n: usize) -> bool {
    match axis {
        None => n == 0,
        Some(o) => runs_take(pieces(o@), n),
    }
}

pub open spec fn both_take(
    rows: Option<AxisOrder>,
    cols: Option<AxisOrder>,
    r: usize,
    c: usize,
) -> bool {
    axis_takes(rows, r) && axis_takes(cols, c)
}

/// What an order takes, given the room it has for runs and for where they begin.
pub fn order_bytes(runs: usize, starts: usize) -> (n: usize)
    ensures
        n == at_most_max(8 * runs + 8 * starts),
{
    capped_mul(runs, 8).saturating_add(capped_mul(starts, 8))
}

/// The data index at display position `d` of an axis that may be untouched.
pub open spec fn axis_at(axis: Option<AxisOrder>, d: u32) -> Option<u32> {
    match axis {
        None => Some(d),
        Some(o) => if d < o@.len() {
            Some(o@[d as int])
        } else {
            None
        },
    }
}

impl SheetOrder {
    pub open spec fn wf(&self) -> bool {
        &&& self.rows matches Some(o) ==> o.wf()
        &&& self.cols matches Some(o) ==> o.wf()
    }

    /// An untouched sheet.
    pub fn new() -> (r: SheetOrder)
        ensures
            r.wf(),
            r.rows is None,
            r.cols is None,
    {
        SheetOrder { rows: None, cols: None }
    }

    /// True when neither axis has been reordered, so reads can skip mapping.
    pub fn is_identity(&self) -> (b: bool)
        requires
            self.wf(),
        ensures
            b == ((self.rows matches Some(o) ==> o@ == ascending(0, o@.len())) && (
            self.cols matches Some(o) ==> o@ == ascending(0, o@.len()))),
    {
        let r = match &self.rows {
            None => true,
            Some(o) => o.is_identity(),
        };
        let c = match &self.cols {
            None => true,
            Some(o) => o.is_identity(),
        };
        r && c
    }

    /// Map a display cell to the base data cell it shows, or `None` past the
    /// end of a reordered axis.
    pub fn to_data(&self, row: u32, col: u32) -> (r: Option<(u32, u32)>)
        requires
            self.wf(),
        ensures
            r == match (axis_at(self.rows, row), axis_at(self.cols, col)) {
                (Some(a), Some(b)) => Some((a, b)),
                _ => None,
            },
    {
        let r: u32 = match &self.rows {
            None => row,
            Some(o) => match o.data_of(row as u64) {
                Some(d) => d,
                None => {
                    return None;
                },
            },
        };
        let c: u32 = match &self.cols {
            None => col,
            Some(o) => match o.data_of(col as u64) {
                Some(d) => d,
                None => {
                    return None;
                },
            },
        };
        Some((r, c))
    }

    /// The axis as it is, or the identity over `len` where it is untouched.
    pub open spec fn is_materialised(axis: Option<AxisOrder>, len: u64, o: AxisOrder) -> bool {
        match axis {
            Some(a) => o == a,
            None => {
                &&& o.wf()
                &&& o@ == ascending(
                    0,
                    if len <= u32::MAX {
                        len as nat
                    } else {
                        u32::MAX as nat
                    },
                )
                &&& o.fresh() == o@.len()
            },
        }
    }

    /// The row axis, materialising identity on first use.
    pub fn rows_mut(&mut self, len: u64) -> (o: &mut AxisOrder)
        ensures
            Self::is_materialised(old(self).rows, len, *o),
            final(self).rows == Some(*final(o)),
            final(self).cols == old(self).cols,
    {
        if self.rows.is_none() {
            self.rows = Some(AxisOrder::identity(len));
        }
        self.rows.as_mut().unwrap()
    }

    /// The column axis, materialising identity on first use.
    pub fn cols_mut(&mut self, len: u64) -> (o: &mut AxisOrder)
        ensures
            Self::is_materialised(old(self).cols, len, *o),
            final(self).cols == Some(*final(o)),
            final(self).rows == old(self).rows,
    {
        if self.cols.is_none() {
            self.cols = Some(AxisOrder::identity(len));
        }
        self.cols.as_mut().unwrap()
    }

    pub fn heap_bytes(&self) -> (n: usize)
        requires
            self.wf(),
        ensures
            exists|rows: usize, cols: usize| #[trigger]
                both_take(self.rows, self.cols, rows, cols) && n == at_most_max(rows + cols),
    {
        let r: usize = match &self.rows {
            None => 0,
            Some(o) => o.heap_bytes(),
        };
        let c: usize = match &self.cols {
            None => 0,
            Some(o) => o.heap_bytes(),
        };
        assert(both_take(self.rows, self.cols, r, c));
        r.saturating_add(c)
    }
}

impl Clone for SheetOrder {
    fn clone(&self) -> (r: SheetOrder)
        ensures
            self.wf() ==> r.wf(),
            r.rows is Some == self.rows is Some,
            r.cols is Some == self.cols is Some,
            self.rows matches Some(o) ==> r.rows->0@ == o@ && r.rows->0.fresh() == o.fresh(),
            self.cols matches Some(o) ==> r.cols->0@ == o@ && r.cols->0.fresh() == o.fresh(),
    {
        let rows = match &self.rows {
            None => None,
            Some(o) => Some(o.clone()),
        };
        let cols = match &self.cols {
            None => None,
            Some(o) => Some(o.clone()),
        };
        SheetOrder { rows, cols }
    }
}

impl Default for SheetOrder {
    fn default() -> (r: SheetOrder)
        ensures
            r.wf(),
            r.rows is None,
            r.cols is None,
    {
        SheetOrder::new()
    }
}

// ------------------------------------------------------------ entry by entry --

/// A block that is moved begins where its destination pointed before the move, or ends
/// there when it moves down; what it passes makes way by the length of the block, and
/// everything else stays where it was.
pub proof fn a_moved_block_lands_at_its_destination(
    s: Seq<u32>,
    from: int,
    count: int,
    to: int,
    k: int,
)
    requires
        0 <= from,
        0 < count,
        from + count <= s.len(),
        0 <= to <= from || from + count <= to <= s.len(),
        0 <= k < s.len(),
    ensures
        moved(s, from, count, to).len() == s.len(),
        from <= k < from + count && to <= from ==> moved(s, from, count, to)[to + (k - from)]
            == s[k],
        from <= k < from + count && to > from ==> moved(s, from, count, to)[to - count + (k
            - from)] == s[k],
        to <= k < from ==> moved(s, from, count, to)[k + count] == s[k],
        from + count <= k < to ==> moved(s, from, count, to)[k - count] == s[k],
        k < from && k < to ==> moved(s, from, count, to)[k] == s[k],
        k >= from + count && k >= to ==> moved(s, from, count, to)[k] == s[k],
{
}

/// Where an entry is shown after an edit is where the edit maps its position to; the
/// positions that were taken out map nowhere.
pub proof fn a_position_follows_its_entry(
    s: Seq<u32>,
    at: u32,
    count: u32,
    block: Seq<u32>,
    i: u32,
)
    requires
        i < s.len(),
        s.len() + count <= u32::MAX,
    ensures
        at <= s.len() && block.len() == count ==> ({
            let m = (AxisShift::Insert { at, count }).map_spec(i);
            m is Some && inserted(s, at as int, block)[m->0 as int] == s[i as int]
        }),
        at + count <= s.len() ==> ({
            let m = (AxisShift::Delete { at, count }).map_spec(i);
            &&& m is None <==> at <= i < at + count
            &&& m is Some ==> removed(s, at as int, count as int)[m->0 as int] == s[i as int]
        }),
{
}

/// Growing keeps what is shown and adds to its end; an axis that was never touched stays
/// in its own order.
pub proof fn growing_adds_to_the_end(s: Seq<u32>, fresh: int, len: u64, i: int)
    requires
        s.len() <= u32::MAX,
        0 <= fresh,
        0 <= i < AxisOrder::grown(s, fresh, len).len(),
    ensures
        len <= s.len() ==> AxisOrder::grown(s, fresh, len) == s,
        s.len() < len <= u32::MAX ==> AxisOrder::grown(s, fresh, len).len() == len,
        i < s.len() ==> AxisOrder::grown(s, fresh, len)[i] == s[i],
        s == ascending(0, s.len()) && len > s.len() ==> AxisOrder::grown(s, fresh, len)[i] == i,
        s != ascending(0, s.len()) && s.len() <= i && fresh + len <= u32::MAX ==> fresh
            <= AxisOrder::grown(s, fresh, len)[i],
{
    let g = AxisOrder::grown(s, fresh, len);
    if s == ascending(0, s.len()) && i < s.len() {
        assert(s[i] == i as u32);
    }
    if s != ascending(0, s.len()) && s.len() <= i && fresh + len <= u32::MAX {
        let start = AxisOrder::growth_start(fresh, s.len() as int, len as int);
        assert(0 <= (len - s.len()) % 0x1_0000_0000);
        assert(g[i] == (start + (i - s.len())) as u32);
        assert(len - s.len() == (len - s.len()) % 0x1_0000_0000);
    }
}

/// A move is refused for a block that reaches past the end, for a destination past the
/// end, for one inside the block, and where more stretches would be left than can be
/// tracked; for nothing else.
pub proof fn a_move_is_refused_for_four_reasons(s: Seq<u32>, from: u64, count: u64, to: u64)
    requires
        count > 0,
        from != to,
        s.len() <= u32::MAX,
    ensures
        ({
            let r = AxisOrder::move_outcome(s, from, count, to);
            let fits = from + count <= s.len() && to <= s.len();
            &&& r is Err <==> !fits || from < to < from + count || pieces(s) + 3 > 65536
            &&& !fits ==> r is Err && r->Err_0 is OutOfRange
            &&& fits && from < to < from + count ==> r is Err && r->Err_0 is DestinationInsideSpan
        }),
        AxisOrder::remove_outcome(s, from, count) is Err <==> from + count > s.len() || pieces(s)
            + 2 > 65536,
        AxisOrder::insert_outcome(s, from, count) is Err <==> from > s.len() || count > u32::MAX
            || pieces(s) + 2 > 65536,
{
}

} // verus!
