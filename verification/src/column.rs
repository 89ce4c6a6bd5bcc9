//! Columnar cell storage.
//!
//! Each column keeps parallel arrays: a one-byte tag per cell, eight bytes per
//! cell for numbers and four for text ids, each allocated only once the column
//! holds such a cell, and one bit per cell that says whether it holds anything.
//! A column of numbers costs a little over nine bytes per cell.

use crate::bitmap::{ones_of, Bitmap};
use crate::capacity::{at_most_max, capacity_of, capped_mul, shrink};
use crate::value::{
    all_marked, largest, lemma_units_bound, smallest, units_of, ErrorKind, Ruler, StrId, Value, F64,
    INF64, NEG_INF64,
};
use vstd::prelude::*;

verus! {

/// The tag of an empty cell.
pub const TAG_EMPTY: u8 = 0;

pub const TAG_NUMBER: u8 = 1;

pub const TAG_BOOL: u8 = 2;

pub const TAG_TEXT: u8 = 3;

pub const TAG_ERROR: u8 = 4;

pub open spec fn error_code(e: ErrorKind) -> u64 {
    match e {
        ErrorKind::DivZero => 0,
        ErrorKind::Value => 1,
        ErrorKind::Ref => 2,
        ErrorKind::Name => 3,
        ErrorKind::Num => 4,
        ErrorKind::NotAvailable => 5,
        ErrorKind::Null => 6,
        ErrorKind::Circular => 7,
    }
}

pub open spec fn error_of(code: u64) -> ErrorKind {
    if code == 0 {
        ErrorKind::DivZero
    } else if code == 1 {
        ErrorKind::Value
    } else if code == 2 {
        ErrorKind::Ref
    } else if code == 3 {
        ErrorKind::Name
    } else if code == 4 {
        ErrorKind::Num
    } else if code == 5 {
        ErrorKind::NotAvailable
    } else if code == 6 {
        ErrorKind::Null
    } else {
        ErrorKind::Circular
    }
}

/// Every kind of error survives being stored.
pub proof fn error_codes_read_back(e: ErrorKind)
    ensures
        error_of(error_code(e)) == e,
{
}

fn encode_error(e: ErrorKind) -> (n: u64)
    ensures
        n == error_code(e),
{
    match e {
        ErrorKind::DivZero => 0,
        ErrorKind::Value => 1,
        ErrorKind::Ref => 2,
        ErrorKind::Name => 3,
        ErrorKind::Num => 4,
        ErrorKind::NotAvailable => 5,
        ErrorKind::Null => 6,
        ErrorKind::Circular => 7,
    }
}

fn decode_error(code: u64) -> (e: ErrorKind)
    ensures
        e == error_of(code),
{
    match code {
        0 => ErrorKind::DivZero,
        1 => ErrorKind::Value,
        2 => ErrorKind::Ref,
        3 => ErrorKind::Name,
        4 => ErrorKind::Num,
        5 => ErrorKind::NotAvailable,
        6 => ErrorKind::Null,
        _ => ErrorKind::Circular,
    }
}

/// A single column of cells.
#[derive(Debug)]
pub struct Column {
    tags: Vec<u8>,
    /// The bits of numbers, 0 or 1 for booleans, codes for errors.
    numbers: Vec<u64>,
    strings: Vec<u32>,
    present: Bitmap,
    has_numbers: bool,
    has_strings: bool,
}

#[verifier::ext_equal]
pub ghost struct ColumnView {
    pub cells: Seq<Value>,
    /// The array for numbers has been allocated.
    pub numbers: bool,
    /// The array for text has been allocated.
    pub strings: bool,
}

impl ColumnView {
    /// Room for so many elements in the arrays, and so many words of the bitmap of
    /// blanks, is enough for the column.
    pub open spec fn fits(self, tags: usize, numbers: usize, strings: usize, words: usize) -> bool {
        let n = self.cells.len();
        &&& tags >= n
        &&& self.numbers ==> numbers >= n
        &&& self.strings ==> strings >= n
        &&& words >= (n + 63) / 64
    }
}

/// What a column's arrays take, given the room they have.
pub fn column_bytes(tags: usize, numbers: usize, strings: usize, words: usize) -> (n: usize)
    ensures
        n == at_most_max(tags + 8 * numbers + 4 * strings + 8 * words),
{
    tags.saturating_add(capped_mul(numbers, 8)).saturating_add(
        capped_mul(strings, 4),
    ).saturating_add(capped_mul(words, 8))
}

/// What the arrays say a cell holds.
pub open spec fn stored(tag: u8, number: u64, string: u32) -> Value {
    if tag == TAG_NUMBER {
        Value::Number(F64(number))
    } else if tag == TAG_BOOL {
        Value::Bool(number != 0)
    } else if tag == TAG_TEXT {
        Value::Text(StrId(string))
    } else if tag == TAG_ERROR {
        Value::Error(error_of(number))
    } else {
        Value::Empty
    }
}

impl View for Column {
    type V = ColumnView;

    closed spec fn view(&self) -> ColumnView {
        ColumnView {
            cells: Seq::new(
                self.tags@.len(),
                |i: int| stored(self.tags@[i], self.numbers@[i], self.strings@[i]),
            ),
            numbers: self.has_numbers,
            strings: self.has_strings,
        }
    }
}

/// Which cells hold anything.
pub open spec fn filled(cells: Seq<Value>) -> Seq<bool> {
    Seq::new(cells.len(), |i: int| !(cells[i] is Empty))
}

/// The value takes a place in the array for numbers.
pub open spec fn numeric_slot(v: Value) -> bool {
    v is Number || v is Bool || v is Error
}

impl ColumnView {
    pub open spec fn empty() -> ColumnView {
        ColumnView { cells: Seq::empty(), numbers: false, strings: false }
    }

    /// Grown to at least `rows` rows, gaps empty.
    pub open spec fn grown(self, rows: nat) -> ColumnView {
        ColumnView {
            cells: Seq::new(
                if rows > self.cells.len() {
                    rows
                } else {
                    self.cells.len()
                },
                |i: int|
                    if i < self.cells.len() {
                        self.cells[i]
                    } else {
                        Value::Empty
                    },
            ),
            ..self
        }
    }

    /// With one cell written.
    pub open spec fn with(self, row: int, v: Value) -> ColumnView {
        let wide = self.grown((row + 1) as nat);
        ColumnView {
            cells: wide.cells.update(row, v),
            numbers: self.numbers || numeric_slot(v),
            strings: self.strings || v is Text,
        }
    }

    /// A cell's value; cells past the end are empty.
    pub open spec fn at(self, row: int) -> Value {
        if row < self.cells.len() {
            self.cells[row]
        } else {
            Value::Empty
        }
    }
}

/// The end of a range of rows, cut to the column.
pub open spec fn clipped(end: int, len: nat) -> int {
    if end < len {
        end
    } else {
        len as int
    }
}

/// The numbers in the rows `start..end`, in order. Text, booleans, errors and empty
/// cells are passed over.
pub open spec fn numbers_in(cells: Seq<Value>, start: int, end: int) -> Seq<F64>
    decreases end - start,
{
    if start >= end {
        Seq::empty()
    } else {
        match cells[end - 1] {
            Value::Number(x) => numbers_in(cells, start, end - 1).push(x),
            _ => numbers_in(cells, start, end - 1),
        }
    }
}

impl Default for Column {
    fn default() -> (c: Column)
        ensures
            c.wf(),
            c@ == ColumnView::empty(),
    {
        Column::new()
    }
}

fn copy_u8(v: &Vec<u8>) -> (r: Vec<u8>)
    ensures
        r@ == v@,
{
    let mut r: Vec<u8> = Vec::with_capacity(v.len());
    r.extend_from_slice(v.as_slice());
    assert(r@ =~= v@);
    r
}

fn copy_u32(v: &Vec<u32>) -> (r: Vec<u32>)
    ensures
        r@ == v@,
{
    let mut r: Vec<u32> = Vec::with_capacity(v.len());
    r.extend_from_slice(v.as_slice());
    assert(r@ =~= v@);
    r
}

fn copy_u64(v: &Vec<u64>) -> (r: Vec<u64>)
    ensures
        r@ == v@,
{
    let mut r: Vec<u64> = Vec::with_capacity(v.len());
    r.extend_from_slice(v.as_slice());
    assert(r@ =~= v@);
    r
}

impl Clone for Column {
    fn clone(&self) -> (c: Column)
        ensures
            c@ == self@,
            self.wf() ==> c.wf(),
    {
        Column {
            tags: copy_u8(&self.tags),
            numbers: copy_u64(&self.numbers),
            strings: copy_u32(&self.strings),
            present: self.present.clone(),
            has_numbers: self.has_numbers,
            has_strings: self.has_strings,
        }
    }
}

impl Column {
    pub closed spec fn wf(self) -> bool {
        let n = self.tags@.len();
        &&& self.present.wf()
        &&& self.present@.len() == n
        &&& self.has_numbers ==> self.numbers@.len() == n
        &&& self.has_strings ==> self.strings@.len() == n
        &&& forall|i: int| 0 <= i < n ==> #[trigger] self.tags@[i] <= TAG_ERROR
        &&& forall|i: int|
            0 <= i < n ==> #[trigger] self.present@[i] == (self.tags@[i] != TAG_EMPTY)
        &&& forall|i: int|
            0 <= i < n && !self.has_numbers ==> #[trigger] self.tags@[i] == TAG_EMPTY
                || self.tags@[i] == TAG_TEXT
        &&& forall|i: int|
            0 <= i < n && !self.has_strings ==> #[trigger] self.tags@[i] != TAG_TEXT
    }

    pub fn new() -> (c: Column)
        ensures
            c.wf(),
            c@ == ColumnView::empty(),
    {
        let c = Column {
            tags: Vec::new(),
            numbers: Vec::new(),
            strings: Vec::new(),
            present: Bitmap::new(),
            has_numbers: false,
            has_strings: false,
        };
        assert(c@.cells =~= Seq::<Value>::empty());
        c
    }

    pub fn with_capacity(rows: usize) -> (c: Column)
        ensures
            c.wf(),
            c@ == ColumnView::empty(),
    {
        let c = Column {
            tags: Vec::with_capacity(rows),
            numbers: Vec::new(),
            strings: Vec::new(),
            present: Bitmap::with_capacity(rows),
            has_numbers: false,
            has_strings: false,
        };
        assert(c@.cells =~= Seq::<Value>::empty());
        c
    }

    pub fn len(&self) -> (n: usize)
        ensures
            n == self@.cells.len(),
    {
        self.tags.len()
    }

    pub fn is_empty(&self) -> (b: bool)
        ensures
            b == (self@.cells.len() == 0),
    {
        self.tags.len() == 0
    }

    /// Whether the array for numbers has been allocated. A column that only ever
    /// held text pays nothing for it.
    pub fn has_numbers(&self) -> (b: bool)
        ensures
            b == self@.numbers,
    {
        self.has_numbers
    }

    /// Number of non-empty cells.
    pub fn populated(&self) -> (n: usize)
        requires
            self.wf(),
        ensures
            n == ones_of(filled(self@.cells)),
    {
        assert(filled(self@.cells) =~= self.present@);
        self.present.count_set()
    }

    fn ensure_numbers(&mut self)
        requires
            old(self).wf(),
        ensures
            final(self).wf(),
            final(self).has_numbers,
            final(self)@ == (ColumnView { numbers: true, ..old(self)@ }),
            final(self).tags == old(self).tags,
            final(self).present == old(self).present,
    {
        if !self.has_numbers {
            self.numbers.clear();
            self.numbers.resize(self.tags.len(), 0);
            self.has_numbers = true;
            assert(self@.cells =~= old(self)@.cells);
        }
    }

    fn ensure_strings(&mut self)
        requires
            old(self).wf(),
        ensures
            final(self).wf(),
            final(self).has_strings,
            final(self)@ == (ColumnView { strings: true, ..old(self)@ }),
            final(self).tags == old(self).tags,
            final(self).present == old(self).present,
    {
        if !self.has_strings {
            self.strings.clear();
            self.strings.resize(self.tags.len(), 0);
            self.has_strings = true;
            assert(self@.cells =~= old(self)@.cells);
        }
    }

    /// Grow the column so that it has at least `rows` rows, filling gaps with
    /// empty cells.
    pub fn ensure_rows(&mut self, rows: usize)
        requires
            old(self).wf(),
        ensures
            final(self).wf(),
            final(self)@ == old(self)@.grown(rows as nat),
    {
        let n: usize = self.tags.len();
        if rows <= n {
            assert(self@.cells =~= old(self)@.grown(rows as nat).cells);
            return;
        }
        self.tags.resize(rows, TAG_EMPTY);
        if self.has_numbers {
            self.numbers.resize(rows, 0);
        }
        if self.has_strings {
            self.strings.resize(rows, 0);
        }
        self.present.resize(rows, false);
        proof {
            let o = *old(self);
            assert forall|i: int| 0 <= i < n implies #[trigger] self.tags@[i] == o.tags@[i] && (
            self.has_numbers ==> self.numbers@[i] == o.numbers@[i]) && (self.has_strings
                ==> self.strings@[i] == o.strings@[i]) by {
                assert(self.tags@.subrange(0, n as int)[i] == o.tags@[i]);
                if self.has_numbers {
                    assert(self.numbers@.subrange(0, n as int)[i] == o.numbers@[i]);
                }
                if self.has_strings {
                    assert(self.strings@.subrange(0, n as int)[i] == o.strings@[i]);
                }
            }
            assert(self@.cells =~= o@.grown(rows as nat).cells);
        }
    }

    /// Read a cell. Out-of-range reads are `Empty`.
    pub fn get(&self, row: usize) -> (v: Value)
        requires
            self.wf(),
        ensures
            v == self@.at(row as int),
    {
        if row >= self.tags.len() {
            return Value::Empty;
        }
        let tag: u8 = self.tags[row];
        assert(self@.cells[row as int] == stored(
            tag,
            self.numbers@[row as int],
            self.strings@[row as int],
        ));
        if tag == TAG_NUMBER {
            Value::Number(F64(self.numbers[row]))
        } else if tag == TAG_BOOL {
            Value::Bool(self.numbers[row] != 0)
        } else if tag == TAG_TEXT {
            Value::Text(StrId(self.strings[row]))
        } else if tag == TAG_ERROR {
            Value::Error(decode_error(self.numbers[row]))
        } else {
            Value::Empty
        }
    }

    /// Write a cell, growing the column if needed.
    pub fn set(&mut self, row: usize, value: Value)
        requires
            old(self).wf(),
            row < usize::MAX,
        ensures
            final(self).wf(),
            final(self)@ == old(self)@.with(row as int, value),
    {
        self.ensure_rows(row + 1);
        let ghost wide = self@;
        assert(self.tags@.len() == wide.cells.len());
        match value {
            Value::Empty => {
                self.tags.set(row, TAG_EMPTY);
                self.present.set(row, false);
                assert(self@.cells =~= wide.cells.update(row as int, value));
                return;
            },
            Value::Number(n) => {
                self.ensure_numbers();
                self.numbers.set(row, n.0);
                self.tags.set(row, TAG_NUMBER);
            },
            Value::Bool(b) => {
                self.ensure_numbers();
                let n: u64 = if b {
                    1
                } else {
                    0
                };
                self.numbers.set(row, n);
                self.tags.set(row, TAG_BOOL);
            },
            Value::Text(id) => {
                self.ensure_strings();
                self.strings.set(row, id.0);
                self.tags.set(row, TAG_TEXT);
            },
            Value::Error(e) => {
                self.ensure_numbers();
                let n: u64 = encode_error(e);
                self.numbers.set(row, n);
                self.tags.set(row, TAG_ERROR);
                proof {
                    error_codes_read_back(e);
                }
            },
        }
        self.present.set(row, true);
        assert(self@.cells =~= wide.cells.update(row as int, value));
    }

    /// Append a cell to the end.
    pub fn push(&mut self, value: Value)
        requires
            old(self).wf(),
            old(self)@.cells.len() < usize::MAX,
        ensures
            final(self).wf(),
            final(self)@ == old(self)@.with(old(self)@.cells.len() as int, value),
            final(self)@.cells == old(self)@.cells.push(value),
    {
        let row: usize = self.tags.len();
        self.set(row, value);
        assert(self@.cells =~= old(self)@.cells.push(value));
    }

    /// Bulk-append a run of numbers: one resize instead of many pushes, and no
    /// branch on the tag for each cell.
    pub fn extend_numbers(&mut self, values: &[F64])
        requires
            old(self).wf(),
            old(self)@.cells.len() + values@.len() <= usize::MAX,
        ensures
            final(self).wf(),
            final(self)@ == (ColumnView {
                cells: old(self)@.cells + values@.map_values(|x: F64| Value::Number(x)),
                numbers: old(self)@.numbers || values@.len() > 0,
                strings: old(self)@.strings,
            }),
    {
        let k: usize = values.len();
        if k == 0 {
            assert(self@.cells =~= old(self)@.cells + values@.map_values(
                |x: F64| Value::Number(x),
            ));
            return;
        }
        self.ensure_numbers();
        let ghost o = *self;
        let start: usize = self.tags.len();
        let end: usize = start + k;
        self.tags.resize(end, TAG_NUMBER);
        let mut i: usize = 0;
        while i < k
            invariant
                i <= k == values@.len(),
                self.numbers@.len() == start + i,
                forall|j: int| 0 <= j < start ==> self.numbers@[j] == o.numbers@[j],
                forall|j: int| 0 <= j < i ==> #[trigger] self.numbers@[start + j] == values@[j].0,
                self.tags@.len() == end,
                self.tags@.subrange(0, start as int) == o.tags@,
                forall|j: int| start <= j < end ==> #[trigger] self.tags@[j] == TAG_NUMBER,
                self.strings == o.strings,
                self.present == o.present,
                self.has_numbers == o.has_numbers,
                self.has_strings == o.has_strings,
            decreases k - i,
        {
            self.numbers.push(values[i].0);
            i = i + 1;
        }
        if self.has_strings {
            self.strings.resize(end, 0);
        }
        self.present.resize(end, true);
        proof {
            assert forall|j: int| 0 <= j < start implies #[trigger] self.tags@[j] == o.tags@[j] && (
            self.has_strings ==> self.strings@[j] == o.strings@[j]) by {
                assert(self.tags@.subrange(0, start as int)[j] == o.tags@[j]);
                if self.has_strings {
                    assert(self.strings@.subrange(0, start as int)[j] == o.strings@[j]);
                }
            }
            assert forall|j: int| start <= j < end implies #[trigger] self.numbers@[j]
                == values@[j - start].0 by {
                assert(self.numbers@[start + (j - start)] == values@[j - start].0);
            }
            assert(self@.cells =~= old(self)@.cells + values@.map_values(
                |x: F64| Value::Number(x),
            ));
        }
    }

    /// True when no cell in `start..end` holds anything.
    pub fn is_range_empty(&self, start: usize, end: usize) -> (b: bool)
        requires
            self.wf(),
        ensures
            b == (forall|i: int|
                start <= i < end && i < self@.cells.len() ==> #[trigger] self@.cells[i] is Empty),
    {
        proof {
            assert forall|i: int| 0 <= i < self@.cells.len() implies (!self.present@[i]
                == #[trigger] self@.cells[i] is Empty) by {}
        }
        let b = self.present.is_range_empty(start, end);
        proof {
            if b {
                assert forall|i: int| start <= i < end && i < self@.cells.len() implies
                    #[trigger] self@.cells[i] is Empty by {
                    assert(!self.present@[i]);
                }
            } else {
                let i = choose|i: int|
                    start <= i < end && i < self.present@.len() && self.present@[i];
                assert(!(self@.cells[i] is Empty));
            }
        }
        b
    }

    /// Count of numeric cells in a row range.
    pub fn count_numeric(&self, start: usize, end: usize) -> (n: usize)
        requires
            self.wf(),
        ensures
            n == numbers_in(
                self@.cells,
                start as int,
                clipped(end as int, self@.cells.len()),
            ).len(),
    {
        let total: usize = self.tags.len();
        let stop: usize = if end < total {
            end
        } else {
            total
        };
        let mut n: usize = 0;
        let mut i: usize = start;
        while i < stop
            invariant
                start <= i,
                i <= stop || i == start,
                stop <= total == self.tags@.len(),
                n == numbers_in(self@.cells, start as int, i as int).len(),
                n <= i - start,
            decreases stop - i,
        {
            assert(self@.cells[i as int] == stored(
                self.tags@[i as int],
                self.numbers@[i as int],
                self.strings@[i as int],
            ));
            if self.tags[i] == TAG_NUMBER {
                n = n + 1;
            }
            i = i + 1;
        }
        n
    }

    /// Smallest and largest of the numeric cells in a range, NaNs passed over;
    /// `None` where there is no numeric cell.
    pub fn min_max_range(&self, start: usize, end: usize) -> (r: Option<(F64, F64)>)
        requires
            self.wf(),
        ensures
            ({
                let v = numbers_in(
                    self@.cells,
                    start as int,
                    clipped(end as int, self@.cells.len()),
                );
                r == if v.len() > 0 {
                    Some((smallest(v), largest(v)))
                } else {
                    None
                }
            }),
    {
        let total: usize = self.tags.len();
        let stop: usize = if end < total {
            end
        } else {
            total
        };
        let mut lo = F64(INF64);
        let mut hi = F64(NEG_INF64);
        let mut seen = false;
        let mut i: usize = start;
        while i < stop
            invariant
                self.wf(),
                start <= i,
                i <= stop || i == start,
                stop <= total == self.tags@.len(),
                lo == smallest(numbers_in(self@.cells, start as int, i as int)),
                hi == largest(numbers_in(self@.cells, start as int, i as int)),
                seen == (numbers_in(self@.cells, start as int, i as int).len() > 0),
            decreases stop - i,
        {
            proof {
                assert(self@.cells[i as int] == stored(
                    self.tags@[i as int],
                    self.numbers@[i as int],
                    self.strings@[i as int],
                ));
                let before = numbers_in(self@.cells, start as int, i as int);
                let after = numbers_in(self@.cells, start as int, i + 1);
                if self.tags@[i as int] == TAG_NUMBER {
                    assert(after.drop_last() =~= before);
                    assert(after.last() == F64(self.numbers@[i as int]));
                }
            }
            if self.tags[i] == TAG_NUMBER {
                let v = F64(self.numbers[i]);
                if v.less_than(lo) {
                    lo = v;
                }
                if hi.less_than(v) {
                    hi = v;
                }
                seen = true;
            }
            i = i + 1;
        }
        if seen {
            Some((lo, hi))
        } else {
            None
        }
    }

    /// Approximate heap footprint in bytes.
    pub fn heap_bytes(&self) -> (n: usize)
        requires
            self.wf(),
        ensures
            exists|tags: usize, numbers: usize, strings: usize, words: usize| #[trigger]
                self@.fits(tags, numbers, strings, words) && n == at_most_max(
                    tags + 8 * numbers + 4 * strings + 8 * words,
                ),
    {
        let tags: usize = capacity_of(&self.tags);
        let numbers: usize = capacity_of(&self.numbers);
        let strings: usize = capacity_of(&self.strings);
        let words: usize = self.present.word_capacity();
        assert(self@.fits(tags, numbers, strings, words));
        column_bytes(tags, numbers, strings, words)
    }

    /// Release excess capacity after ingest.
    pub fn shrink_to_fit(&mut self)
        requires
            old(self).wf(),
        ensures
            final(self).wf(),
            final(self)@ == old(self)@,
    {
        shrink(&mut self.tags);
        shrink(&mut self.numbers);
        shrink(&mut self.strings);
        assert(self@ =~= old(self)@);
    }
}

// ---------------------------------------------------------------- summing --

/// One step of compensated summation: the sum and its compensation before `x` and
/// after it, `plus` and `minus` being the arithmetic.
pub open spec fn compensated<P: Fn(F64, F64) -> F64, M: Fn(F64, F64) -> F64>(
    plus: P,
    minus: M,
    sum: F64,
    c: F64,
    x: F64,
    next_sum: F64,
    next_c: F64,
) -> bool {
    exists|y: F64, d: F64|
        {
            &&& #[trigger] minus.ensures((x, c), y)
            &&& plus.ensures((sum, y), next_sum)
            &&& #[trigger] minus.ensures((next_sum, sum), d)
            &&& minus.ensures((d, y), next_c)
        }
}

/// `states` are the sums and compensations while the numbers go by, from zero on.
pub open spec fn summing<P: Fn(F64, F64) -> F64, M: Fn(F64, F64) -> F64>(
    plus: P,
    minus: M,
    v: Seq<F64>,
    states: Seq<(F64, F64)>,
) -> bool {
    &&& states.len() == v.len() + 1
    &&& states[0] == (F64(0), F64(0))
    &&& forall|i: int|
        0 <= i < v.len() ==> compensated(
            plus,
            minus,
            states[i].0,
            states[i].1,
            #[trigger] v[i],
            states[i + 1].0,
            states[i + 1].1,
        )
}

impl Column {
    /// Sum of the numeric cells in a row range, text and empty cells passed over.
    ///
    /// The sum is compensated: a plain accumulator drifts once the running total
    /// passes the precision of the numbers, because every further addition rounds
    /// away the low bits of what is added. `plus` and `minus` are the arithmetic.
    pub fn sum_range<P: Fn(F64, F64) -> F64, M: Fn(F64, F64) -> F64>(
        &self,
        start: usize,
        end: usize,
        plus: P,
        minus: M,
    ) -> (sum: F64)
        requires
            self.wf(),
            forall|x: F64, y: F64| #[trigger] plus.requires((x, y)),
            forall|x: F64, y: F64| #[trigger] minus.requires((x, y)),
        ensures
            exists|states: Seq<(F64, F64)>|
                {
                    &&& #[trigger] summing(
                        plus,
                        minus,
                        numbers_in(
                            self@.cells,
                            start as int,
                            clipped(end as int, self@.cells.len()),
                        ),
                        states,
                    )
                    &&& states.last().0 == sum
                },
    {
        let total: usize = self.tags.len();
        let stop: usize = if end < total {
            end
        } else {
            total
        };
        let mut sum = F64(0);
        let mut c = F64(0);
        let ghost mut states: Seq<(F64, F64)> = seq![(F64(0), F64(0))];
        let mut i: usize = start;
        while i < stop
            invariant
                self.wf(),
                start <= i,
                i <= stop || i == start,
                stop <= total == self.tags@.len(),
                forall|x: F64, y: F64| #[trigger] plus.requires((x, y)),
                forall|x: F64, y: F64| #[trigger] minus.requires((x, y)),
                summing(
                    plus,
                    minus,
                    numbers_in(self@.cells, start as int, i as int),
                    states,
                ),
                states.last() == (sum, c),
            decreases stop - i,
        {
            let ghost before = numbers_in(self@.cells, start as int, i as int);
            let ghost after = numbers_in(self@.cells, start as int, i + 1);
            assert(self@.cells[i as int] == stored(
                self.tags@[i as int],
                self.numbers@[i as int],
                self.strings@[i as int],
            ));
            if self.tags[i] == TAG_NUMBER {
                let x = F64(self.numbers[i]);
                let y = minus(x, c);
                let t = plus(sum, y);
                let d = minus(t, sum);
                let next = minus(d, y);
                proof {
                    let old_states = states;
                    states = states.push((t, next));
                    assert(minus.ensures((x, c), y) && minus.ensures((t, sum), d));
                    assert(compensated(plus, minus, sum, c, x, t, next));
                    assert(after =~= before.push(x));
                    assert forall|k: int| 0 <= k < after.len() implies compensated(
                        plus,
                        minus,
                        states[k].0,
                        states[k].1,
                        #[trigger] after[k],
                        states[k + 1].0,
                        states[k + 1].1,
                    ) by {
                        if k < before.len() {
                            assert(before[k] == after[k]);
                            assert(states[k] == old_states[k]);
                            assert(states[k + 1] == old_states[k + 1]);
                        }
                    }
                }
                c = next;
                sum = t;
            }
            i = i + 1;
        }
        assert(stop == clipped(end as int, self@.cells.len()));
        assert(summing(plus, minus, numbers_in(self@.cells, start as int, stop as int), states)) by {
            if start >= stop {
                assert(numbers_in(self@.cells, start as int, stop as int) =~= Seq::empty());
            }
        }
        sum
    }
}

// --------------------------------------------------------------- scanning --

/// What a scan looks for. Text is looked for by id and never as text: the ids that
/// match are found once and tested as a bit set.
pub struct ScanQuery {
    /// The ids whose text matches.
    pub ids: Bitmap,
    /// Whether a number can match at all.
    pub numbers: bool,
    pub when_true: bool,
    pub when_false: bool,
    /// The error kinds whose names match.
    pub errors: Vec<ErrorKind>,
}

/// Whether a cell matches, `hit` being what `number` said of a number.
pub open spec fn matching<N: Fn(F64) -> bool>(
    q: ScanQuery,
    number: N,
    v: Value,
    hit: bool,
) -> bool {
    match v {
        Value::Empty => !hit,
        Value::Number(x) => if q.numbers {
            number.ensures((x,), hit)
        } else {
            !hit
        },
        Value::Bool(b) => hit == if b {
            q.when_true
        } else {
            q.when_false
        },
        Value::Text(id) => hit == (id.0 < q.ids@.len() && q.ids@[id.0 as int]),
        Value::Error(e) => hit == q.errors@.contains(e),
    }
}

/// The rows that are hit, counted from `start`.
pub open spec fn hit_rows(hits: Seq<bool>, start: int) -> Seq<u32>
    decreases hits.len(),
{
    if hits.len() == 0 {
        Seq::empty()
    } else {
        let before = hit_rows(hits.drop_last(), start);
        if hits.last() {
            before.push((start + hits.len() - 1) as u32)
        } else {
            before
        }
    }
}

/// `hits` says of every row from `start` to `stop` whether it matches.
pub open spec fn scanned<N: Fn(F64) -> bool>(
    q: ScanQuery,
    number: N,
    cells: Seq<Value>,
    start: int,
    stop: int,
    hits: Seq<bool>,
) -> bool {
    &&& hits.len() == if start < stop {
        stop - start
    } else {
        0
    }
    &&& forall|k: int|
        0 <= k < hits.len() ==> matching(q, number, cells[start + k], #[trigger] hits[k])
}

fn has_error(v: &Vec<ErrorKind>, e: ErrorKind) -> (b: bool)
    ensures
        b == v@.contains(e),
{
    let mut i: usize = 0;
    while i < v.len()
        invariant
            i <= v@.len(),
            forall|k: int| 0 <= k < i ==> v@[k] != e,
        decreases v@.len() - i,
    {
        if v[i] == e {
            return true;
        }
        i = i + 1;
    }
    false
}

impl Column {
    /// Append the rows in `start..end` whose value matches, to `out`. `number` says
    /// whether a number matches.
    pub fn scan_matches<N: Fn(F64) -> bool>(
        &self,
        start: usize,
        end: usize,
        query: &ScanQuery,
        number: N,
        out: &mut Vec<u32>,
    )
        requires
            self.wf(),
            query.ids.wf(),
            forall|x: F64| #[trigger] number.requires((x,)),
        ensures
            exists|hits: Seq<bool>|
                {
                    &&& #[trigger] scanned(
                        *query,
                        number,
                        self@.cells,
                        start as int,
                        clipped(end as int, self@.cells.len()),
                        hits,
                    )
                    &&& final(out)@ == old(out)@ + hit_rows(hits, start as int)
                },
    {
        let total: usize = self.tags.len();
        let stop: usize = if end < total {
            end
        } else {
            total
        };
        let ghost mut hits: Seq<bool> = Seq::empty();
        let mut i: usize = start;
        assert(out@ =~= old(out)@ + hit_rows(hits, start as int));
        while i < stop
            invariant
                self.wf(),
                query.ids.wf(),
                start <= i,
                i <= stop || i == start,
                stop <= total == self.tags@.len(),
                forall|x: F64| #[trigger] number.requires((x,)),
                hits.len() == i - start,
                forall|k: int|
                    0 <= k < hits.len() ==> matching(
                        *query,
                        number,
                        self@.cells[start + k],
                        #[trigger] hits[k],
                    ),
                out@ == old(out)@ + hit_rows(hits, start as int),
            decreases stop - i,
        {
            let hit = match self.get(i) {
                Value::Empty => false,
                Value::Number(x) => if query.numbers {
                    number(x)
                } else {
                    false
                },
                Value::Bool(b) => if b {
                    query.when_true
                } else {
                    query.when_false
                },
                Value::Text(id) => query.ids.get(id.0 as usize),
                Value::Error(e) => has_error(&query.errors, e),
            };
            let ghost old_hits = hits;
            let ghost had = out@;
            if hit {
                out.push(i as u32);
            }
            proof {
                hits = hits.push(hit);
                assert(hits.drop_last() =~= old_hits);
                assert(matching(*query, number, self@.cells[i as int], hit));
                assert(out@ =~= old(out)@ + hit_rows(hits, start as int));
            }
            i = i + 1;
        }
        assert(stop == clipped(end as int, self@.cells.len()));
        assert(scanned(*query, number, self@.cells, start as int, stop as int, hits));
    }
}

// ------------------------------------------------------------------- laws --

/// A written cell reads back as it was written, and every other cell is as it was.
pub proof fn a_written_cell_reads_back(c: ColumnView, row: int, v: Value, other: int)
    requires
        0 <= row,
        0 <= other,
    ensures
        c.with(row, v).at(row) == v,
        other != row ==> c.with(row, v).at(other) == c.at(other),
{
}

/// A column that is only ever given text allocates no array for numbers.
pub proof fn text_needs_no_number_array(c: ColumnView, row: int, v: Value)
    requires
        !c.numbers,
        v is Text || v is Empty,
    ensures
        !c.with(row, v).numbers,
{
}

// -------------------------------------------------------------------- laws --

/// A range's numbers are those of its parts, one after the other, and a single row gives
/// its number where it has one and nothing otherwise.
pub proof fn numbers_are_taken_row_by_row(cells: Seq<Value>, a: int, b: int, c: int)
    requires
        0 <= a <= b <= c <= cells.len(),
    ensures
        numbers_in(cells, a, c) == numbers_in(cells, a, b) + numbers_in(cells, b, c),
        a < cells.len() ==> numbers_in(cells, a, a + 1) == match cells[a] {
            Value::Number(x) => seq![x],
            _ => Seq::empty(),
        },
    decreases c - b,
{
    reveal_with_fuel(numbers_in, 2);
    if a < cells.len() {
        assert(numbers_in(cells, a, a) =~= Seq::<F64>::empty());
        match cells[a] {
            Value::Number(x) => {
                assert(Seq::<F64>::empty().push(x) =~= seq![x]);
            },
            _ => {},
        }
    }
    if b < c {
        numbers_are_taken_row_by_row(cells, a, b, c - 1);
        assert(numbers_in(cells, a, c) =~= numbers_in(cells, a, b) + numbers_in(cells, b, c));
    } else {
        assert(numbers_in(cells, a, b) + numbers_in(cells, b, c) =~= numbers_in(cells, a, b));
    }
}

/// The compensated sum of whole units is their sum, and nothing is left to make up for.
pub proof fn a_compensated_sum_is_the_sum<P: Fn(F64, F64) -> F64, M: Fn(F64, F64) -> F64>(
    ruler: Ruler,
    plus: P,
    minus: M,
    v: Seq<F64>,
    most: int,
    states: Seq<(F64, F64)>,
)
    requires
        ruler.straight(),
        ruler.adds(plus),
        ruler.subtracts(minus),
        most >= 0,
        all_marked(ruler, v, most),
        most * v.len() <= ruler.limit,
        summing(plus, minus, v, states),
    ensures
        ruler.reads(states.last().0, units_of(ruler, v)),
        ruler.reads(states.last().1, 0),
{
    lemma_summing(ruler, plus, minus, v, most, states, v.len() as int);
    assert(v.subrange(0, v.len() as int) =~= v);
}

proof fn lemma_summing<P: Fn(F64, F64) -> F64, M: Fn(F64, F64) -> F64>(
    ruler: Ruler,
    plus: P,
    minus: M,
    v: Seq<F64>,
    most: int,
    states: Seq<(F64, F64)>,
    k: int,
)
    requires
        ruler.straight(),
        ruler.adds(plus),
        ruler.subtracts(minus),
        most >= 0,
        all_marked(ruler, v, most),
        most * v.len() <= ruler.limit,
        summing(plus, minus, v, states),
        0 <= k <= v.len(),
    ensures
        ruler.reads(states[k].0, units_of(ruler, v.subrange(0, k))),
        ruler.reads(states[k].1, 0),
    decreases k,
{
    let s = v.subrange(0, k);
    if k > 0 {
        lemma_summing(ruler, plus, minus, v, most, states, k - 1);
        let before = v.subrange(0, k - 1);
        assert(s.drop_last() =~= before);
        assert(s.last() == v[k - 1]);
        lemma_part_bound(ruler, v, most, k);
        lemma_part_bound(ruler, v, most, k - 1);
        let x = v[k - 1];
        let a = (ruler.marks)(x)->0;
        let t = units_of(ruler, before);
        let (y, d) = choose|y: F64, d: F64|
            {
                &&& #[trigger] minus.ensures((x, states[k - 1].1), y)
                &&& plus.ensures((states[k - 1].0, y), states[k].0)
                &&& #[trigger] minus.ensures((states[k].0, states[k - 1].0), d)
                &&& minus.ensures((d, y), states[k].1)
            };
        assert(most <= most * v.len()) by (nonlinear_arith)
            requires
                most >= 0,
                v.len() >= 1,
        ;
        assert(ruler.reads(x, a));
        assert(ruler.within(a - 0));
        assert(ruler.reads(y, a - 0));
        assert(ruler.within(t + a));
        assert(ruler.reads(states[k].0, t + a));
        assert(ruler.reads(d, (t + a) - t));
        assert(ruler.reads(states[k].1, a - a));
    } else {
        assert(s =~= Seq::<F64>::empty());
    }
}

proof fn lemma_part_bound(ruler: Ruler, v: Seq<F64>, most: int, k: int)
    requires
        most >= 0,
        all_marked(ruler, v, most),
        most * v.len() <= ruler.limit,
        0 <= k <= v.len(),
    ensures
        ruler.within(units_of(ruler, v.subrange(0, k))),
{
    let s = v.subrange(0, k);
    assert forall|i: int| 0 <= i < s.len() implies (ruler.marks)(#[trigger] s[i]) is Some && -most
        <= (ruler.marks)(s[i])->0 <= most by {
        assert(s[i] == v[i]);
    }
    lemma_units_bound(ruler, s, most);
    assert(most * k <= most * v.len()) by (nonlinear_arith)
        requires
            most >= 0,
            0 <= k <= v.len(),
    ;
}

/// A scan lists exactly the rows that match, each once and from the first down.
pub proof fn a_scan_lists_the_rows_that_match(hits: Seq<bool>, start: int, row: u32)
    requires
        0 <= start,
        start + hits.len() <= u32::MAX,
    ensures
        hit_rows(hits, start).contains(row) <==> start <= row < start + hits.len() && hits[row
            - start],
        forall|i: int, j: int|
            0 <= i < j < hit_rows(hits, start).len() ==> #[trigger] hit_rows(hits, start)[i]
                < #[trigger] hit_rows(hits, start)[j],
        forall|i: int|
            0 <= i < hit_rows(hits, start).len() ==> #[trigger] hit_rows(hits, start)[i] < start
                + hits.len(),
    decreases hits.len(),
{
    if hits.len() > 0 {
        let d = hits.drop_last();
        let before = hit_rows(d, start);
        let all = hit_rows(hits, start);
        a_scan_lists_the_rows_that_match(d, start, row);
        if before.contains(row) {
            let i = choose|i: int| 0 <= i < before.len() && before[i] == row;
            assert(all[i] == row);
        }
        if all.contains(row) {
            let i = choose|i: int| 0 <= i < all.len() && all[i] == row;
            if i < before.len() {
                assert(before[i] == row);
            }
        }
        if hits.last() {
            assert(all[all.len() - 1] == start + hits.len() - 1);
        }
    }
}

/// An empty cell never matches; text matches when its id is marked; a number is only
/// asked about when numbers are looked for; a truth value and an error match when they
/// are among those looked for.
pub proof fn a_cell_matches_by_its_kind<N: Fn(F64) -> bool>(
    q: ScanQuery,
    number: N,
    x: F64,
    id: StrId,
    e: ErrorKind,
    hit: bool,
)
    ensures
        matching(q, number, Value::Empty, hit) <==> !hit,
        !q.numbers ==> (matching(q, number, Value::Number(x), hit) <==> !hit),
        q.numbers ==> (matching(q, number, Value::Number(x), hit) <==> number.ensures((x,), hit)),
        matching(q, number, Value::Bool(true), hit) <==> hit == q.when_true,
        matching(q, number, Value::Bool(false), hit) <==> hit == q.when_false,
        id.0 >= q.ids@.len() ==> (matching(q, number, Value::Text(id), hit) <==> !hit),
        id.0 < q.ids@.len() ==> (matching(q, number, Value::Text(id), hit) <==> hit
            == q.ids@[id.0 as int]),
        matching(q, number, Value::Error(e), hit) <==> hit == q.errors@.contains(e),
{
}

/// A range of rows is cut at the end of the column and nowhere before.
pub proof fn a_range_is_cut_at_the_end_of_the_column(end: int, len: nat)
    ensures
        end <= len ==> clipped(end, len) == end,
        end >= len ==> clipped(end, len) == len,
{
}

} // verus!
