//! Remove Duplicates: a streaming scan that holds keys, never rows.
//!
//! The only thing that survives from one row to the next is the cells of its key
//! columns, and only when they have not been seen before. Memory grows with the
//! distinct keys and the key columns, not with the rows scanned and not with the
//! sheet's width.
//!
//! The first occurrence of a key is kept and every later one is reported as a
//! duplicate. The scan modifies nothing.

use crate::capacity::{at_most_max, capacity_of, capped_mul, lemma_capped_factor};
use crate::index::{latest, mix, mixed, HashIndex, HASH_SEED};
use crate::value::{ErrorKind, StrId, Value, F64, NAN64};
use vstd::layout::size_of;
use vstd::prelude::*;
use vstd::std_specs::iter::IteratorSpec;

verus! {

/// One key column's cell, reduced to something that can be compared and hashed.
///
/// The two zeros are one key, and so are all NaNs.
#[derive(Clone, Copy, Debug, PartialEq, Eq, Hash, Structural)]
pub enum KeyCell {
    Empty,
    /// The number's bits, canonicalised.
    Number(u64),
    Bool(bool),
    /// Arena id, not a copied string.
    Text(StrId),
    Error(ErrorKind),
}

pub open spec fn key_cell(v: Value) -> KeyCell {
    match v {
        Value::Empty => KeyCell::Empty,
        Value::Number(n) => KeyCell::Number(
            if n.rank() == 0 {
                0
            } else if n.nan_spec() {
                NAN64
            } else {
                n.0
            },
        ),
        Value::Bool(b) => KeyCell::Bool(b),
        Value::Text(id) => KeyCell::Text(id),
        Value::Error(e) => KeyCell::Error(e),
    }
}

impl KeyCell {
    /// Reduce a cell value to a key part.
    pub fn of(v: Value) -> (k: KeyCell)
        ensures
            k == key_cell(v),
    {
        match v {
            Value::Empty => KeyCell::Empty,
            Value::Number(n) => if n.is_zero() {
                KeyCell::Number(0)
            } else if n.is_nan() {
                KeyCell::Number(NAN64)
            } else {
                KeyCell::Number(n.0)
            },
            Value::Bool(b) => KeyCell::Bool(b),
            Value::Text(id) => KeyCell::Text(id),
            Value::Error(e) => KeyCell::Error(e),
        }
    }
}

/// The key columns of one row.
pub type RowKey = Vec<KeyCell>;

/// Read access to the cells being deduplicated. What a cell holds is a function
/// of where it is.
pub trait DupeKeys {
    spec fn value_at(&self, row: u32, col: u32) -> Value;

    fn key_value(&self, row: u32, col: u32) -> (v: Value)
        ensures
            v == self.value_at(row, col),
    ;
}

/// The key of a row.
pub open spec fn row_key<S: DupeKeys>(src: S, cols: Seq<u32>, row: u32) -> Seq<KeyCell> {
    Seq::new(cols.len(), |i: int| key_cell(src.value_at(row, cols[i])))
}

/// What a scan found.
#[derive(Clone, Copy, Debug, PartialEq, Eq, Structural)]
pub struct DupeReport {
    /// Rows examined.
    pub scanned: u64,
    /// Rows whose key had already been seen.
    pub duplicates: u64,
    /// Distinct keys, that is rows that would survive.
    pub unique: u64,
    /// Bytes held by the key set.
    pub key_heap_bytes: usize,
}

impl Default for DupeReport {
    fn default() -> (r: DupeReport)
        ensures
            r == (DupeReport { scanned: 0, duplicates: 0, unique: 0, key_heap_bytes: 0 }),
    {
        DupeReport { scanned: 0, duplicates: 0, unique: 0, key_heap_bytes: 0 }
    }
}

// ---------------------------------------------------------------- hashing --

pub open spec fn error_number(e: ErrorKind) -> u64 {
    match e {
        ErrorKind::DivZero => 0,
        ErrorKind::Value => 1,
        ErrorKind::Ref => 2,
        ErrorKind::Name => 3,
        ErrorKind::Num => 4,
        ErrorKind::NotAvailable => 5,
        ErrorKind::Null => 6,
        ErrorKind::Circular => 7,
    }
}

pub open spec fn cell_hash(h: u64, c: KeyCell) -> u64 {
    match c {
        KeyCell::Empty => mixed(h, 0),
        KeyCell::Number(n) => mixed(mixed(mixed(h, 1), n & 0xffff_ffff), n >> 32),
        KeyCell::Bool(b) => mixed(
            h,
            if b {
                3
            } else {
                2
            },
        ),
        KeyCell::Text(id) => mixed(mixed(h, 4), id.0 as u64),
        KeyCell::Error(e) => mixed(mixed(h, 5), error_number(e)),
    }
}

pub open spec fn key_hash(k: Seq<KeyCell>) -> u64
    decreases k.len(),
{
    if k.len() == 0 {
        HASH_SEED
    } else {
        cell_hash(key_hash(k.drop_last()), k.last())
    }
}

fn hash_cell(h: u64, c: KeyCell) -> (r: u64)
    ensures
        r == cell_hash(h, c),
{
    match c {
        KeyCell::Empty => mix(h, 0),
        KeyCell::Number(n) => {
            let a: u64 = mix(h, 1);
            let b: u64 = mix(a, n & 0xffff_ffff);
            mix(b, n >> 32)
        },
        KeyCell::Bool(b) => if b {
            mix(h, 3)
        } else {
            mix(h, 2)
        },
        KeyCell::Text(id) => {
            let a: u64 = mix(h, 4);
            mix(a, id.0 as u64)
        },
        KeyCell::Error(e) => {
            let a: u64 = mix(h, 5);
            let n: u64 = match e {
                ErrorKind::DivZero => 0,
                ErrorKind::Value => 1,
                ErrorKind::Ref => 2,
                ErrorKind::Name => 3,
                ErrorKind::Num => 4,
                ErrorKind::NotAvailable => 5,
                ErrorKind::Null => 6,
                ErrorKind::Circular => 7,
            };
            mix(a, n)
        },
    }
}

fn hash_key(k: &Vec<KeyCell>) -> (h: u64)
    ensures
        h == key_hash(k@),
{
    let mut h: u64 = HASH_SEED;
    let mut i: usize = 0;
    while i < k.len()
        invariant
            i <= k@.len(),
            h == key_hash(k@.subrange(0, i as int)),
        decreases k@.len() - i,
    {
        assert(k@.subrange(0, i + 1).drop_last() =~= k@.subrange(0, i as int));
        h = hash_cell(h, k[i]);
        i = i + 1;
    }
    assert(k@.subrange(0, k@.len() as int) =~= k@);
    h
}

fn same_key(a: &Vec<KeyCell>, b: &Vec<KeyCell>) -> (r: bool)
    ensures
        r == (a@ == b@),
{
    if a.len() != b.len() {
        return false;
    }
    let mut i: usize = 0;
    while i < a.len()
        invariant
            i <= a@.len() == b@.len(),
            forall|k: int| 0 <= k < i ==> a@[k] == b@[k],
        decreases a@.len() - i,
    {
        if a[i] != b[i] {
            return false;
        }
        i = i + 1;
    }
    assert(a@ =~= b@);
    true
}

fn copy_key(k: &Vec<KeyCell>) -> (r: Vec<KeyCell>)
    ensures
        r@ == k@,
{
    let mut r: Vec<KeyCell> = Vec::with_capacity(k.len());
    let mut i: usize = 0;
    while i < k.len()
        invariant
            i <= k@.len(),
            r@ == k@.subrange(0, i as int),
        decreases k@.len() - i,
    {
        r.push(k[i]);
        i = i + 1;
        assert(r@ =~= k@.subrange(0, i as int));
    }
    assert(k@.subrange(0, k@.len() as int) =~= k@);
    r
}

// ------------------------------------------------------------------- scan --

/// What some keys of `cols` columns take, given room for `slots` of them.
pub open spec fn key_bytes(slots: usize, keys: int, cols: int) -> int {
    slots * size_of::<RowKey>() + keys * (size_of::<KeyCell>() * cols)
}

/// What room for `slots` keys, and the cells of those that were seen, take.
pub open spec fn room_takes(v: ScanView, slots: usize, n: usize) -> bool {
    slots >= v.seen.len() && n == at_most_max(
        key_bytes(slots, v.seen.len() as int, v.key_cols.len() as int),
    )
}

/// What the keys that were seen take: the table that there is room for, and the cells
/// of every key.
pub open spec fn keys_take(v: ScanView, n: usize) -> bool {
    exists|slots: usize| #[trigger] room_takes(v, slots, n)
}

/// The bytes that a table with room for `slots` keys takes, holding `keys` of `cols`
/// columns.
pub fn scan_bytes(slots: usize, keys: usize, cols: usize) -> (n: usize)
    ensures
        n == at_most_max(key_bytes(slots, keys as int, cols as int)),
{
    let entry: usize = std::mem::size_of::<RowKey>();
    let cell: usize = std::mem::size_of::<KeyCell>();
    proof {
        lemma_capped_factor(keys as int, cell * cols);
        assert(slots * entry >= 0 && cell * cols >= 0) by (nonlinear_arith);
        assert(keys * (cell * cols) >= 0) by (nonlinear_arith)
            requires
                cell * cols >= 0,
        ;
    }
    capped_mul(slots, entry).saturating_add(capped_mul(keys, capped_mul(cell, cols)))
}

/// The streaming deduplicator.
///
/// Fed one row at a time. It holds the keys seen so far and nothing else: no row
/// indices, no cell payloads, no per-row bookkeeping.
#[derive(Debug)]
pub struct DupeScan {
    keys: Vec<RowKey>,
    index: HashIndex,
    key_cols: Vec<u32>,
    scanned: u64,
    duplicates: u64,
    scratch: RowKey,
}

#[verifier::ext_equal]
pub ghost struct ScanView {
    pub key_cols: Seq<u32>,
    /// The distinct keys in the order in which they came.
    pub seen: Seq<Seq<KeyCell>>,
    pub scanned: nat,
    pub duplicates: nat,
}

pub open spec fn key_views(v: Seq<RowKey>) -> Seq<Seq<KeyCell>> {
    Seq::new(v.len(), |i: int| v[i]@)
}

impl View for DupeScan {
    type V = ScanView;

    closed spec fn view(&self) -> ScanView {
        ScanView {
            key_cols: self.key_cols@,
            seen: key_views(self.keys@),
            scanned: self.scanned as nat,
            duplicates: self.duplicates as nat,
        }
    }
}

impl ScanView {
    pub open spec fn fresh(key_cols: Seq<u32>) -> ScanView {
        ScanView { key_cols, seen: Seq::empty(), scanned: 0, duplicates: 0 }
    }

    /// After one row more, with the given key.
    pub open spec fn after(self, key: Seq<KeyCell>) -> ScanView {
        if self.seen.contains(key) {
            ScanView { scanned: self.scanned + 1, duplicates: self.duplicates + 1, ..self }
        } else {
            ScanView { scanned: self.scanned + 1, seen: self.seen.push(key), ..self }
        }
    }

    /// Every row was a duplicate or brought a key.
    pub open spec fn balanced(self) -> bool {
        &&& self.scanned == self.duplicates + self.seen.len()
        &&& self.seen.no_duplicates()
    }
}

impl DupeScan {
    pub closed spec fn wf(self) -> bool {
        &&& self.index.wf()
        &&& self.index@.len() == self.keys@.len()
        &&& forall|i: int|
            0 <= i < self.keys@.len() ==> #[trigger] self.index@[i] == key_hash(self.keys@[i]@)
        &&& self@.balanced()
    }

    /// A scan keyed on `key_cols`.
    pub fn new(key_cols: Vec<u32>) -> (r: DupeScan)
        ensures
            r.wf(),
            r@ == ScanView::fresh(key_cols@),
    {
        let n: usize = key_cols.len();
        let r = DupeScan {
            keys: Vec::new(),
            index: HashIndex::new(),
            key_cols,
            scanned: 0,
            duplicates: 0,
            scratch: Vec::with_capacity(n),
        };
        assert(r@.seen =~= Seq::<Seq<KeyCell>>::empty());
        r
    }

    pub fn key_cols(&self) -> (r: &Vec<u32>)
        ensures
            r@ == self@.key_cols,
    {
        &self.key_cols
    }

    /// Whether the key in the scratch row has been seen.
    fn knows(&self, h: u64) -> (b: bool)
        requires
            self.wf(),
            h == key_hash(self.scratch@),
        ensures
            b == self@.seen.contains(self.scratch@),
    {
        let mut at = self.index.newest(h);
        let ghost mut end: int = self.keys@.len() as int;
        loop
            invariant
                self.wf(),
                h == key_hash(self.scratch@),
                0 <= end <= self.keys@.len(),
                latest(self.index@, h, end, at),
                forall|k: int|
                    end <= k < self.keys@.len() ==> (#[trigger] self.keys@[k])@ != self.scratch@,
            decreases end,
        {
            match at {
                Some(i) => {
                    if same_key(&self.keys[i], &self.scratch) {
                        assert(self@.seen[i as int] == self.scratch@);
                        return true;
                    }
                    proof {
                        assert forall|k: int|
                            i <= k < self.keys@.len() implies (#[trigger] self.keys@[k])@
                            != self.scratch@ by {
                            if i < k < end {
                                assert(self.index@[k] != h);
                                assert(self.index@[k] == key_hash(self.keys@[k]@));
                            }
                        }
                        assert(self.index@[i as int] == h);
                        end = i as int;
                    }
                    at = self.index.older(i);
                },
                None => {
                    proof {
                        let seen = self@.seen;
                        assert forall|k: int| 0 <= k < seen.len() implies seen[k]
                            != self.scratch@ by {
                            if k < end {
                                assert(self.index@[k] != h);
                                assert(self.index@[k] == key_hash(self.keys@[k]@));
                            }
                            assert(seen[k] == self.keys@[k]@);
                        }
                    }
                    return false;
                },
            }
        }
    }

    /// Offer one row. `true` means it is a duplicate of an earlier row.
    ///
    /// The first row carrying a key is never a duplicate.
    pub fn observe<S: DupeKeys>(&mut self, row: u32, src: &S) -> (duplicate: bool)
        requires
            old(self).wf(),
            old(self)@.scanned < u64::MAX,
        ensures
            final(self).wf(),
            duplicate == old(self)@.seen.contains(row_key(*src, old(self)@.key_cols, row)),
            final(self)@ == old(self)@.after(row_key(*src, old(self)@.key_cols, row)),
    {
        let ghost cols = self.key_cols@;
        let ghost key = row_key(*src, cols, row);
        let ghost was = self@;
        self.scratch.clear();
        let mut i: usize = 0;
        while i < self.key_cols.len()
            invariant
                i <= cols.len(),
                self.key_cols@ == cols,
                key == row_key(*src, cols, row),
                self.scratch@ == key.subrange(0, i as int),
                self.keys == old(self).keys,
                self.index == old(self).index,
                self.scanned == old(self).scanned,
                self.duplicates == old(self).duplicates,
            decreases cols.len() - i,
        {
            let c: u32 = self.key_cols[i];
            self.scratch.push(KeyCell::of(src.key_value(row, c)));
            i = i + 1;
            assert(self.scratch@ =~= key.subrange(0, i as int));
        }
        assert(self.scratch@ =~= key);
        assert(self@ =~= was);
        let h: u64 = hash_key(&self.scratch);
        let known = self.knows(h);
        self.scanned = self.scanned + 1;
        if known {
            self.duplicates = self.duplicates + 1;
            assert(self@ =~= was.after(key));
            return true;
        }
        let ghost keys = self.keys@;
        let fresh = copy_key(&self.scratch);
        self.index.push(h);
        self.keys.push(fresh);
        proof {
            assert(self@.seen =~= was.seen.push(key));
            assert(self@ =~= was.after(key));
            assert forall|i: int| 0 <= i < self.keys@.len() implies #[trigger] self.index@[i]
                == key_hash(self.keys@[i]@) by {
                if i < keys.len() {
                    assert(old(self).index@[i] == key_hash(keys[i]@));
                }
            }
            let seen = self@.seen;
            assert forall|i: int, j: int|
                0 <= i < seen.len() && 0 <= j < seen.len() && i != j implies seen[i]
                != seen[j] by {
                if i < keys.len() && j < keys.len() {
                    assert(was.seen[i] != was.seen[j]);
                } else if i < keys.len() {
                    assert(was.seen.contains(was.seen[i]));
                } else {
                    assert(was.seen.contains(was.seen[j]));
                }
            }
        }
        false
    }

    /// Bytes held by the key set: they grow with the distinct keys and the key
    /// columns, never with the rows scanned.
    pub fn key_heap_bytes(&self) -> (n: usize)
        ensures
            keys_take(self@, n),
    {
        let slots: usize = capacity_of(&self.keys);
        let n: usize = scan_bytes(slots, self.keys.len(), self.key_cols.len());
        assert(room_takes(self@, slots, n));
        n
    }

    pub fn report(&self) -> (r: DupeReport)
        requires
            self.wf(),
        ensures
            r == (DupeReport {
                scanned: self@.scanned as u64,
                duplicates: self@.duplicates as u64,
                unique: self@.seen.len() as u64,
                key_heap_bytes: r.key_heap_bytes,
            }),
            keys_take(self@, r.key_heap_bytes),
    {
        DupeReport {
            scanned: self.scanned,
            duplicates: self.duplicates,
            unique: self.keys.len() as u64,
            key_heap_bytes: self.key_heap_bytes(),
        }
    }
}

/// The state of a scan after some rows.
pub open spec fn scan_of<S: DupeKeys>(src: S, cols: Seq<u32>, rows: Seq<u32>) -> ScanView
    decreases rows.len(),
{
    if rows.len() == 0 {
        ScanView::fresh(cols)
    } else {
        scan_of(src, cols, rows.drop_last()).after(row_key(src, cols, rows.last()))
    }
}

/// The rows that a scan reports, in the order in which they came.
pub open spec fn duplicates_of<S: DupeKeys>(src: S, cols: Seq<u32>, rows: Seq<u32>) -> Seq<u32>
    decreases rows.len(),
{
    if rows.len() == 0 {
        Seq::empty()
    } else {
        let before = duplicates_of(src, cols, rows.drop_last());
        if scan_of(src, cols, rows.drop_last()).seen.contains(row_key(src, cols, rows.last())) {
            before.push(rows.last())
        } else {
            before
        }
    }
}

/// Scan `rows` and list every duplicate, in the order of the rows.
pub fn scan_duplicates<S: DupeKeys, I: Iterator<Item = u32>>(
    rows: I,
    key_cols: Vec<u32>,
    src: &S,
) -> (r: (Vec<u32>, DupeReport))
    requires
        rows.obeys_prophetic_iter_laws(),
        rows.decrease() is Some,
        rows.remaining().len() <= u64::MAX,
    ensures
        r.0@ == duplicates_of(*src, key_cols@, rows.remaining()),
        ({
            let s = scan_of(*src, key_cols@, rows.remaining());
            r.1 == (DupeReport {
                scanned: s.scanned as u64,
                duplicates: s.duplicates as u64,
                unique: s.seen.len() as u64,
                key_heap_bytes: r.1.key_heap_bytes,
            }) && keys_take(s, r.1.key_heap_bytes)
        }),
{
    let ghost cols = key_cols@;
    let ghost all = rows.remaining();
    let ghost mut done: int = 0;
    let mut rows = rows;
    let mut scan = DupeScan::new(key_cols);
    let mut found: Vec<u32> = Vec::new();
    assert(all.subrange(0, 0) =~= Seq::empty());
    assert(all.subrange(0, all.len() as int) =~= all);
    loop
        invariant_except_break
            rows.obeys_prophetic_iter_laws(),
            rows.decrease() is Some,
            all.len() <= u64::MAX,
            0 <= done <= all.len(),
            rows.remaining() == all.subrange(done, all.len() as int),
            scan.wf(),
            scan@.key_cols == cols,
            scan@.scanned == done,
            scan@ == scan_of(*src, cols, all.subrange(0, done)),
            found@ == duplicates_of(*src, cols, all.subrange(0, done)),
        ensures
            scan.wf(),
            scan@.key_cols == cols,
            scan@ == scan_of(*src, cols, all),
            found@ == duplicates_of(*src, cols, all),
        decreases rows.decrease()->0,
    {
        match rows.next() {
            Some(row) => {
                proof {
                    let t = all.subrange(0, done + 1);
                    assert(t.drop_last() =~= all.subrange(0, done));
                    assert(t.last() == row);
                    assert(all.subrange(done, all.len() as int).drop_first() =~= all.subrange(
                        done + 1,
                        all.len() as int,
                    ));
                    done = done + 1;
                }
                if scan.observe(row, src) {
                    found.push(row);
                }
            },
            None => {
                assert(all.subrange(0, done) =~= all);
                break;
            },
        }
    }
    (found, scan.report())
}

// ------------------------------------------------------------------- laws --

/// Two numbers are one key exactly when they are numerically equal or both NaN.
pub proof fn equal_numbers_are_one_key(a: F64, b: F64)
    ensures
        key_cell(Value::Number(a)) == key_cell(Value::Number(b)) <==> (a.eq_num_spec(b) || (
        a.nan_spec() && b.nan_spec())),
{
}

/// The keys seen are exactly the keys of the rows that went by.
pub proof fn a_key_is_seen_when_a_row_carried_it<S: DupeKeys>(
    src: S,
    cols: Seq<u32>,
    rows: Seq<u32>,
    key: Seq<KeyCell>,
)
    ensures
        scan_of(src, cols, rows).seen.contains(key) <==> exists|j: int|
            0 <= j < rows.len() && row_key(src, cols, #[trigger] rows[j]) == key,
    decreases rows.len(),
{
    if rows.len() > 0 {
        let head = rows.drop_last();
        let before = scan_of(src, cols, head).seen;
        let now = scan_of(src, cols, rows).seen;
        let last = row_key(src, cols, rows.last());
        a_key_is_seen_when_a_row_carried_it(src, cols, head, key);
        a_key_is_seen_when_a_row_carried_it(src, cols, head, last);
        if now.contains(key) {
            if before.contains(key) {
                let j = choose|j: int|
                    0 <= j < head.len() && row_key(src, cols, #[trigger] head[j]) == key;
                assert(rows[j] == head[j]);
            } else {
                let j = choose|j: int| 0 <= j < now.len() && now[j] == key;
                if j < before.len() {
                    assert(before[j] == key);
                }
                assert(key == last);
                assert(rows[rows.len() - 1] == rows.last());
            }
        }
        if exists|j: int| 0 <= j < rows.len() && row_key(src, cols, #[trigger] rows[j]) == key {
            let j = choose|j: int|
                0 <= j < rows.len() && row_key(src, cols, #[trigger] rows[j]) == key;
            if j < head.len() {
                assert(head[j] == rows[j]);
                assert(before.contains(key));
                let i = choose|i: int| 0 <= i < before.len() && before[i] == key;
                assert(now[i] == key);
            } else {
                assert(key == last);
                if before.contains(last) {
                    assert(now == before);
                } else {
                    assert(now[before.len() as int] == key);
                }
            }
        }
    }
}

/// The first row with a key is kept and every later one is reported: the last
/// row of a scan is reported exactly when an earlier one has the same key.
pub proof fn the_first_occurrence_is_kept<S: DupeKeys>(src: S, cols: Seq<u32>, rows: Seq<u32>)
    requires
        rows.len() > 0,
    ensures
        ({
            let reported = duplicates_of(src, cols, rows).len() > duplicates_of(
                src,
                cols,
                rows.drop_last(),
            ).len();
            reported <==> exists|j: int|
                0 <= j < rows.len() - 1 && row_key(src, cols, #[trigger] rows[j]) == row_key(
                    src,
                    cols,
                    rows.last(),
                )
        }),
{
    let head = rows.drop_last();
    let key = row_key(src, cols, rows.last());
    a_key_is_seen_when_a_row_carried_it(src, cols, head, key);
    if exists|j: int| 0 <= j < head.len() && row_key(src, cols, #[trigger] head[j]) == key {
        let j = choose|j: int| 0 <= j < head.len() && row_key(src, cols, #[trigger] head[j]) == key;
        assert(rows[j] == head[j]);
    }
    if exists|j: int| 0 <= j < rows.len() - 1 && row_key(src, cols, #[trigger] rows[j]) == key {
        let j = choose|j: int|
            0 <= j < rows.len() - 1 && row_key(src, cols, #[trigger] rows[j]) == key;
        assert(head[j] == rows[j]);
    }
}

/// Every row scanned is a duplicate or brings a key that was not seen before.
pub proof fn every_row_is_unique_or_a_duplicate<S: DupeKeys>(
    src: S,
    cols: Seq<u32>,
    rows: Seq<u32>,
)
    ensures
        scan_of(src, cols, rows).scanned == rows.len(),
        scan_of(src, cols, rows).duplicates == duplicates_of(src, cols, rows).len(),
        scan_of(src, cols, rows).duplicates + scan_of(src, cols, rows).seen.len() == rows.len(),
    decreases rows.len(),
{
    if rows.len() > 0 {
        every_row_is_unique_or_a_duplicate(src, cols, rows.drop_last());
    }
}

/// Duplicates come in ascending order: rows that go up give duplicates that go up,
/// none beyond the last row.
pub proof fn duplicates_come_in_ascending_order<S: DupeKeys>(
    src: S,
    cols: Seq<u32>,
    rows: Seq<u32>,
)
    requires
        forall|i: int, j: int| 0 <= i < j < rows.len() ==> rows[i] < rows[j],
    ensures
        forall|i: int, j: int|
            0 <= i < j < duplicates_of(src, cols, rows).len() ==> duplicates_of(src, cols, rows)[i]
                < duplicates_of(src, cols, rows)[j],
        forall|i: int|
            0 <= i < duplicates_of(src, cols, rows).len() ==> (#[trigger] duplicates_of(
                src,
                cols,
                rows,
            )[i]) <= rows.last(),
    decreases rows.len(),
{
    if rows.len() > 0 {
        let head = rows.drop_last();
        duplicates_come_in_ascending_order(src, cols, head);
        let before = duplicates_of(src, cols, head);
        assert forall|i: int| 0 <= i < before.len() implies #[trigger] before[i] < rows.last() by {
            if head.len() > 0 {
                assert(before[i] <= head.last());
                assert(rows[head.len() - 1] < rows[head.len() as int]);
            }
        }
        let all = duplicates_of(src, cols, rows);
        assert(all == before || all == before.push(rows.last()));
        assert forall|i: int, j: int| 0 <= i < j < all.len() implies all[i] < all[j] by {
            assert(all[i] == before[i]);
            assert(j < before.len() ==> all[j] == before[j]);
        }
        assert forall|i: int| 0 <= i < all.len() implies #[trigger] all[i] <= rows.last() by {
            assert(i < before.len() ==> all[i] == before[i]);
        }
    }
}

/// Two values are one key exactly when they are of one kind and the same there: the
/// same text is the same string id, numbers are told apart by their size alone, and
/// all NaNs are one.
pub proof fn values_are_one_key_when_they_are_alike(a: Value, b: Value)
    ensures
        key_cell(a) == key_cell(b) <==> match (a, b) {
            (Value::Empty, Value::Empty) => true,
            (Value::Number(x), Value::Number(y)) => if x.nan_spec() || y.nan_spec() {
                x.nan_spec() && y.nan_spec()
            } else {
                !x.lt_spec(y) && !y.lt_spec(x)
            },
            (Value::Bool(x), Value::Bool(y)) => x == y,
            (Value::Text(x), Value::Text(y)) => x == y,
            (Value::Error(x), Value::Error(y)) => x == y,
            _ => false,
        },
{
}

/// Two values that no key column tells apart: of one kind, and equal in it.
pub open spec fn alike(a: Value, b: Value) -> bool {
    match (a, b) {
        (Value::Number(x), Value::Number(y)) => x.eq_num_spec(y) || (x.nan_spec() && y.nan_spec()),
        _ => a == b,
    }
}

/// Row `j` has in every key column what row `i` has there.
pub open spec fn repeats<S: DupeKeys>(src: S, cols: Seq<u32>, i: u32, j: u32) -> bool {
    forall|k: int|
        0 <= k < cols.len() ==> alike(
            src.value_at(i, #[trigger] cols[k]),
            src.value_at(j, cols[k]),
        )
}

/// A row is reported exactly when an earlier one has equal values in every key column;
/// reporting it is all that it adds to what was reported before.
pub proof fn a_row_is_reported_when_it_repeats_an_earlier_one<S: DupeKeys>(
    src: S,
    cols: Seq<u32>,
    rows: Seq<u32>,
    row: u32,
)
    ensures
        duplicates_of(src, cols, rows.push(row)) == if exists|i: int|
            0 <= i < rows.len() && #[trigger] repeats(src, cols, rows[i], row) {
            duplicates_of(src, cols, rows).push(row)
        } else {
            duplicates_of(src, cols, rows)
        },
        duplicates_of(src, cols, Seq::empty()) == Seq::<u32>::empty(),
{
    let all = rows.push(row);
    assert(all.drop_last() =~= rows);
    let key = row_key(src, cols, row);
    a_key_is_seen_when_a_row_carried_it(src, cols, rows, key);
    assert forall|i: int| 0 <= i < rows.len() implies (#[trigger] repeats(src, cols, rows[i], row)
        <==> row_key(src, cols, rows[i]) == key) by {
        let mine = row_key(src, cols, rows[i]);
        if repeats(src, cols, rows[i], row) {
            assert forall|k: int| 0 <= k < cols.len() implies mine[k] == key[k] by {
                assert(alike(src.value_at(rows[i], cols[k]), src.value_at(row, cols[k])));
                values_are_one_key_when_they_are_alike(
                    src.value_at(rows[i], cols[k]),
                    src.value_at(row, cols[k]),
                );
            }
            assert(mine =~= key);
        }
        if mine == key {
            assert forall|k: int| 0 <= k < cols.len() implies alike(
                src.value_at(rows[i], #[trigger] cols[k]),
                src.value_at(row, cols[k]),
            ) by {
                assert(mine[k] == key[k]);
                values_are_one_key_when_they_are_alike(
                    src.value_at(rows[i], cols[k]),
                    src.value_at(row, cols[k]),
                );
            }
        }
    }
    if exists|j: int| 0 <= j < rows.len() && row_key(src, cols, #[trigger] rows[j]) == key {
        let j = choose|j: int| 0 <= j < rows.len() && row_key(src, cols, #[trigger] rows[j]) == key;
        assert(repeats(src, cols, rows[j], row));
    }
}

} // verus!
