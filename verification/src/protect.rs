//! Workbook and sheet protection.
//!
//! This is not security. Sheet and workbook protection is a user-interface
//! convention: nothing here encrypts, signs or hides anything, the "password" is
//! reduced to sixteen bits that are written into the file in plain hex, and
//! [`PasswordHash::matching_secret`] makes a string that hashes to any given value
//! without searching. What protection is good for is saying "don't type here".
//!
//! Cells default to locked, and the flag only bites once the sheet is protected.
//! What is stored is the unlocked rectangles, so that the number of entries tracks
//! the gestures the user made and never the area they covered.

use crate::markup::{all_hex, hex_number, hex_run_value, parse_hex};
use crate::regions::{apart, lemma_with_one_more, regions_take, RegionIndex};
use crate::table::{hex_char, hex_value, to_hex_char, CellRef, TableRange};
use crate::text::{chars_of, trim_end, trim_range, trim_start, trimmed, whitespace};
use vstd::prelude::*;
use vstd::utf8::{encode_utf8, is_ascii_chars, is_ascii_chars_encode_utf8};

verus! {

/// The constant that every password hash ends in.
pub const HASH_SALT: u16 = 0xce4b;

/// Length of the string that [`PasswordHash::matching_secret`] builds.
pub const SECRET_LEN: u16 = 9;

// ---------------------------------------------------------------- password --

/// A fifteen-bit accumulator rotated left by one.
pub open spec fn rotated(h: u16) -> u16 {
    ((h >> 14) & 1) | ((h << 1) & 0x7fff)
}

fn rotl15(h: u16) -> (r: u16)
    ensures
        r == rotated(h),
{
    ((h >> 14) & 1) | ((h << 1) & 0x7fff)
}

/// Undoes [`rotl15`] for numbers of fifteen bits.
fn rotr15(h: u16) -> (r: u16)
    ensures
        h < 0x8000 ==> rotated(r) == h && r < 0x8000,
{
    let r: u16 = ((h & 1) << 14) | ((h & 0x7fff) >> 1);
    assert(h < 0x8000u16 ==> r < 0x8000u16 && (((r >> 14) & 1) | ((r << 1) & 0x7fff)) == h)
        by (bit_vector)
        requires
            r == ((h & 1) << 14) | ((h & 0x7fff) >> 1),
    ;
    r
}

/// The accumulator after the bytes, the last byte first.
pub open spec fn accumulated(b: Seq<u8>) -> u16
    decreases b.len(),
{
    if b.len() == 0 {
        0
    } else {
        rotated(accumulated(b.subrange(1, b.len() as int))) ^ (b[0] as u16)
    }
}

/// The hash of a password, given as its bytes.
pub open spec fn hash_of(b: Seq<u8>) -> u16 {
    if b.len() == 0 {
        0
    } else {
        rotated(accumulated(b)) ^ (b.len() as u16) ^ HASH_SALT
    }
}

/// The four hex digits of a number.
pub open spec fn hex4(n: u16) -> Seq<char> {
    seq![
        hex_char((n / 4096) as int),
        hex_char((n / 256 % 16) as int),
        hex_char((n / 16 % 16) as int),
        hex_char((n % 16) as int),
    ]
}

/// A password's hash: sixteen bits, stored in the file as plain hex. Zero means
/// "protected without a password".
#[derive(Clone, Copy, Debug, PartialEq, Eq, Hash, Structural)]
pub struct PasswordHash(pub u16);

impl Default for PasswordHash {
    fn default() -> (h: PasswordHash)
        ensures
            h == PasswordHash(0),
    {
        PasswordHash(0)
    }
}

impl PasswordHash {
    /// No password at all.
    pub fn none() -> (h: PasswordHash)
        ensures
            h == PasswordHash(0),
    {
        PasswordHash(0)
    }

    /// Hash a password.
    pub fn of(password: &str) -> (h: PasswordHash)
        ensures
            h.0 == hash_of(encode_utf8(password@)),
    {
        let bytes = password.as_bytes();
        let ghost b = encode_utf8(password@);
        let n: usize = bytes.len();
        if n == 0 {
            return PasswordHash(0);
        }
        let mut hash: u16 = 0;
        let mut i: usize = n;
        while i > 0
            invariant
                i <= n == b.len(),
                bytes@ == b,
                hash == accumulated(b.subrange(i as int, n as int)),
            decreases i,
        {
            i = i - 1;
            proof {
                let t = b.subrange(i as int, n as int);
                assert(t.subrange(1, t.len() as int) =~= b.subrange(i + 1, n as int));
            }
            hash = rotl15(hash) ^ (bytes[i] as u16);
        }
        assert(b.subrange(0, n as int) =~= b);
        PasswordHash(rotl15(hash) ^ (n as u16) ^ HASH_SALT)
    }

    /// Wrap a hash read straight out of a file.
    pub fn from_raw(raw: u16) -> (h: PasswordHash)
        ensures
            h == PasswordHash(raw),
    {
        PasswordHash(raw)
    }

    pub fn raw(self) -> (n: u16)
        ensures
            n == self.0,
    {
        self.0
    }

    /// Is this "no password"?
    pub fn is_none(self) -> (b: bool)
        ensures
            b == (self.0 == 0),
    {
        self.0 == 0
    }

    /// Does `password` hash to this value? A `true` means very little: the hash
    /// is sixteen bits.
    pub fn verify(self, password: &str) -> (b: bool)
        ensures
            b == (hash_of(encode_utf8(password@)) == self.0),
    {
        PasswordHash::of(password).0 == self.0
    }

    /// The four-hex-digit spelling.
    pub fn to_hex(self) -> (s: String)
        ensures
            s@ == hex4(self.0),
    {
        let n: u16 = self.0;
        let mut s = String::new();
        s.push(to_hex_char((n / 4096) as u8));
        s.push(to_hex_char((n / 256 % 16) as u8));
        s.push(to_hex_char((n / 16 % 16) as u8));
        s.push(to_hex_char((n % 16) as u8));
        assert(s@ =~= hex4(self.0));
        s
    }

    /// Parse a hash's hex spelling, blanks around it ignored.
    pub fn from_hex(s: &str) -> (r: Option<PasswordHash>)
        ensures
            r == parsed(s@),
    {
        let cs = chars_of(s);
        let t = trim_range(&cs, 0, cs.len());
        assert(cs@.subrange(0, cs@.len() as int) =~= cs@);
        match parse_hex(&t) {
            Some(n) => if n <= 0xffff {
                Some(PasswordHash(n as u16))
            } else {
                None
            },
            None => None,
        }
    }

    /// A string that hashes to exactly this value.
    ///
    /// Writers take a password and hash it, and a file gives only the hash. To
    /// write the file back out with its protection takes a string with the same
    /// hash, and this is one. It takes a few shifts and no search, which says how
    /// much such a password is worth.
    ///
    /// `None` for the values that no password of that length can produce: every
    /// hash of a short password has its top bit set.
    pub fn matching_secret(self) -> (r: Option<String>)
        ensures
            match r {
                Some(s) => hash_of(encode_utf8(s@)) == self.0 && s@.len() == SECRET_LEN
                    && is_ascii_chars(s@),
                None => self.0 < 0x8000,
            },
            self.0 < 0x8000 ==> r is None,
    {
        if self.0 == 0 {
            return None;
        }
        let h: u16 = self.0;
        let x: u16 = h ^ SECRET_LEN ^ HASH_SALT;
        assert((x & 0x8000 != 0) == (h < 0x8000) && (x & 0x8000 != 0 || x < 0x8000)) by (bit_vector)
            requires
                x == h ^ 9 ^ 0xce4b,
        ;
        if x & 0x8000 != 0 {
            return None;
        }
        let v: u16 = rotr15(x);
        let b0: u8 = ((v >> 8) & 0x7f) as u8;
        let rest: u16 = v ^ ((b0 as u16) << 8);
        let b7: u8 = ((rest >> 1) & 0x7f) as u8;
        let rest2: u16 = rest ^ ((b7 as u16) << 1);
        let b8: u8 = (rest2 & 1) as u8;
        let mut s = String::new();
        s.push(b8 as char);
        s.push(b7 as char);
        let mut i: usize = 0;
        let ghost head = seq![b8 as char, b7 as char];
        assert(s@ =~= head);
        while i < 6
            invariant
                i <= 6,
                s@ == head + Seq::new(i as nat, |k: int| 0u8 as char),
            decreases 6 - i,
        {
            s.push(0u8 as char);
            i = i + 1;
            assert(s@ =~= head + Seq::new(i as nat, |k: int| 0u8 as char));
        }
        s.push(b0 as char);
        proof {
            let cs = s@;
            assert(b0 < 128 && b7 < 128 && b8 < 128) by (bit_vector)
                requires
                    b0 == ((v >> 8) & 0x7f) as u8,
                    b7 == ((rest >> 1) & 0x7f) as u8,
                    b8 == (rest2 & 1) as u8,
            ;
            assert(cs.len() == 9);
            assert(cs[0] == b8 as char && cs[1] == b7 as char && cs[8] == b0 as char);
            assert(forall|k: int| 2 <= k < 8 ==> cs[k] == 0u8 as char);
            assert(is_ascii_chars(cs));
            is_ascii_chars_encode_utf8(cs);
            let b = encode_utf8(cs);
            assert(b =~= seq![b8, b7, 0u8, 0u8, 0u8, 0u8, 0u8, 0u8, b0]);
            lemma_secret(b0, b7, b8);
            assert(rotated(v) == x);
            assert(v == ((b0 as u16) << 8) ^ ((b7 as u16) << 1) ^ (b8 as u16)) by (bit_vector)
                requires
                    v < 0x8000,
                    b0 == ((v >> 8) & 0x7f) as u8,
                    rest == v ^ ((b0 as u16) << 8),
                    b7 == ((rest >> 1) & 0x7f) as u8,
                    rest2 == rest ^ ((b7 as u16) << 1),
                    b8 == (rest2 & 1) as u8,
            ;
            assert(h == x ^ 9 ^ 0xce4b) by (bit_vector)
                requires
                    x == h ^ 9 ^ 0xce4b,
            ;
        }
        Some(s)
    }
}

/// The accumulator of the nine bytes that a secret consists of.
proof fn lemma_secret(b0: u8, b7: u8, b8: u8)
    requires
        b0 < 128,
        b7 < 128,
        b8 < 128,
    ensures
        accumulated(seq![b8, b7, 0u8, 0u8, 0u8, 0u8, 0u8, 0u8, b0]) == ((b0 as u16) << 8) ^ ((
        b7 as u16) << 1) ^ (b8 as u16),
{
    let s = seq![b8, b7, 0u8, 0u8, 0u8, 0u8, 0u8, 0u8, b0];
    lemma_tail(s, 8);
    lemma_tail(s, 7);
    lemma_tail(s, 6);
    lemma_tail(s, 5);
    lemma_tail(s, 4);
    lemma_tail(s, 3);
    lemma_tail(s, 2);
    lemma_tail(s, 1);
    lemma_tail(s, 0);
    assert(s.subrange(9, 9) =~= Seq::<u8>::empty());
    assert(s.subrange(0, 9) =~= s);
    let a8 = accumulated(s.subrange(8, 9));
    let a7 = accumulated(s.subrange(7, 9));
    let a6 = accumulated(s.subrange(6, 9));
    let a5 = accumulated(s.subrange(5, 9));
    let a4 = accumulated(s.subrange(4, 9));
    let a3 = accumulated(s.subrange(3, 9));
    let a2 = accumulated(s.subrange(2, 9));
    let a1 = accumulated(s.subrange(1, 9));
    let a0 = accumulated(s.subrange(0, 9));
    assert(a0 == ((b0 as u16) << 8) ^ ((b7 as u16) << 1) ^ (b8 as u16)) by (bit_vector)
        requires
            b0 < 128,
            b7 < 128,
            b8 < 128,
            a8 == ((((0u16 >> 14) & 1) | ((0u16 << 1) & 0x7fff)) ^ (b0 as u16)),
            a7 == ((((a8 >> 14) & 1) | ((a8 << 1) & 0x7fff)) ^ (0u8 as u16)),
            a6 == ((((a7 >> 14) & 1) | ((a7 << 1) & 0x7fff)) ^ (0u8 as u16)),
            a5 == ((((a6 >> 14) & 1) | ((a6 << 1) & 0x7fff)) ^ (0u8 as u16)),
            a4 == ((((a5 >> 14) & 1) | ((a5 << 1) & 0x7fff)) ^ (0u8 as u16)),
            a3 == ((((a4 >> 14) & 1) | ((a4 << 1) & 0x7fff)) ^ (0u8 as u16)),
            a2 == ((((a3 >> 14) & 1) | ((a3 << 1) & 0x7fff)) ^ (0u8 as u16)),
            a1 == ((((a2 >> 14) & 1) | ((a2 << 1) & 0x7fff)) ^ (b7 as u16)),
            a0 == ((((a1 >> 14) & 1) | ((a1 << 1) & 0x7fff)) ^ (b8 as u16)),
    ;
}

proof fn lemma_tail(s: Seq<u8>, i: int)
    requires
        0 <= i < s.len(),
    ensures
        accumulated(s.subrange(i, s.len() as int)) == rotated(
            accumulated(s.subrange(i + 1, s.len() as int)),
        ) ^ (s[i] as u16),
{
    let t = s.subrange(i, s.len() as int);
    assert(t.subrange(1, t.len() as int) =~= s.subrange(i + 1, s.len() as int));
    assert(t[0] == s[i]);
}

/// The hash that a hex spelling stands for.
pub open spec fn parsed(s: Seq<char>) -> Option<PasswordHash> {
    match hex_number(trimmed(s)) {
        Some(n) => if n <= 0xffff {
            Some(PasswordHash(n as u16))
        } else {
            None
        },
        None => None,
    }
}

// ---------------------------------------------------------------- lock map --

/// `a` without `b`: the band above, the band below, and what is left and right of
/// `b` in the rows between.
pub open spec fn pieces(a: TableRange, b: TableRange) -> Seq<TableRange> {
    if !a.meets(b) {
        seq![a]
    } else {
        let top = if a.first_row >= b.first_row {
            a.first_row
        } else {
            b.first_row
        };
        let bottom = if a.last_row <= b.last_row {
            a.last_row
        } else {
            b.last_row
        };
        let above = if a.first_row < b.first_row {
            seq![TableRange { last_row: (b.first_row - 1) as u32, ..a }]
        } else {
            Seq::empty()
        };
        let below = if a.last_row > b.last_row {
            seq![TableRange { first_row: (b.last_row + 1) as u32, ..a }]
        } else {
            Seq::empty()
        };
        let left = if a.first_col < b.first_col {
            seq![
                TableRange {
                    first_row: top,
                    last_row: bottom,
                    first_col: a.first_col,
                    last_col: (b.first_col - 1) as u32,
                },
            ]
        } else {
            Seq::empty()
        };
        let right = if a.last_col > b.last_col {
            seq![
                TableRange {
                    first_row: top,
                    last_row: bottom,
                    first_col: (b.last_col + 1) as u32,
                    last_col: a.last_col,
                },
            ]
        } else {
            Seq::empty()
        };
        above + below + left + right
    }
}

/// `a` minus `b`, as up to four rectangles.
fn subtract(a: TableRange, b: TableRange) -> (out: Vec<TableRange>)
    ensures
        out@ == pieces(a, b),
{
    let mut out: Vec<TableRange> = Vec::new();
    if !a.overlaps(&b) {
        out.push(a);
        assert(out@ =~= pieces(a, b));
        return out;
    }
    if a.first_row < b.first_row {
        out.push(TableRange::new(a.first_row, a.first_col, b.first_row - 1, a.last_col));
    }
    if a.last_row > b.last_row {
        out.push(TableRange::new(b.last_row + 1, a.first_col, a.last_row, a.last_col));
    }
    let r0: u32 = if a.first_row >= b.first_row {
        a.first_row
    } else {
        b.first_row
    };
    let r1: u32 = if a.last_row <= b.last_row {
        a.last_row
    } else {
        b.last_row
    };
    if a.first_col < b.first_col {
        out.push(TableRange::new(r0, a.first_col, r1, b.first_col - 1));
    }
    if a.last_col > b.last_col {
        out.push(TableRange::new(r0, b.last_col + 1, r1, a.last_col));
    }
    assert(out@ =~= pieces(a, b));
    out
}

/// `p` lies in `a`.
pub open spec fn inside(p: TableRange, a: TableRange) -> bool {
    a.first_row <= p.first_row && p.last_row <= a.last_row && a.first_col <= p.first_col
        && p.last_col <= a.last_col
}

/// Cutting one rectangle out of another leaves at most four, which share no cell
/// and hold exactly the cells that are in the one and not in the other.
pub proof fn pieces_are_what_is_left(a: TableRange, b: TableRange)
    requires
        a.proper(),
        b.proper(),
    ensures
        pieces(a, b).len() <= 4,
        apart(pieces(a, b)),
        forall|i: int| 0 <= i < pieces(a, b).len() ==> (#[trigger] pieces(a, b)[i]).proper(),
        forall|i: int| 0 <= i < pieces(a, b).len() ==> inside(#[trigger] pieces(a, b)[i], a),
        forall|i: int| 0 <= i < pieces(a, b).len() ==> !(#[trigger] pieces(a, b)[i]).meets(b),
        forall|row: u32, col: u32|
            a.has(row, col) && !b.has(row, col) <==> #[trigger] any_has(pieces(a, b), row, col),
{
    let p = pieces(a, b);
    assert forall|row: u32, col: u32|
        a.has(row, col) && !b.has(row, col) <==> #[trigger] any_has(p, row, col) by {
        if any_has(p, row, col) {
            let i = choose|i: int| 0 <= i < p.len() && (#[trigger] p[i]).has(row, col);
            assert(inside(p[i], a));
        }
        if a.has(row, col) && !b.has(row, col) {
            if !a.meets(b) {
                assert(p[0].has(row, col));
            } else {
                let above: int = if a.first_row < b.first_row {
                    1
                } else {
                    0
                };
                let below: int = if a.last_row > b.last_row {
                    1
                } else {
                    0
                };
                let left: int = if a.first_col < b.first_col {
                    1
                } else {
                    0
                };
                if row < b.first_row {
                    assert(p[0].has(row, col));
                } else if row > b.last_row {
                    assert(p[above].has(row, col));
                } else if col < b.first_col {
                    assert(p[above + below].has(row, col));
                } else {
                    assert(p[above + below + left].has(row, col));
                }
            }
        }
    }
}

/// One of the rectangles holds the cell.
pub open spec fn any_has(v: Seq<TableRange>, row: u32, col: u32) -> bool {
    exists|i: int| 0 <= i < v.len() && (#[trigger] v[i]).has(row, col)
}

/// The rectangles of a sheet that are unlocked. Cells default to locked, so what
/// is kept is the exceptions. No two of them share a cell.
#[derive(Debug, PartialEq, Clone)]
pub struct LockMap {
    unlocked: RegionIndex,
}

impl View for LockMap {
    type V = Set<TableRange>;

    closed spec fn view(&self) -> Set<TableRange> {
        self.unlocked@.to_set()
    }
}

/// `r` is one of the unlocked rectangles and holds the cell.
pub open spec fn opens(m: Set<TableRange>, r: TableRange, cell: CellRef) -> bool {
    m.contains(r) && r.has(cell.row, cell.col)
}

/// The cell is in an unlocked rectangle.
pub open spec fn is_open(m: Set<TableRange>, cell: CellRef) -> bool {
    exists|r: TableRange| #[trigger] opens(m, r, cell)
}

/// `p` is what remains of `r`, one of the rectangles, without `range`.
pub open spec fn left_of(
    m: Set<TableRange>,
    r: TableRange,
    range: TableRange,
    p: TableRange,
) -> bool {
    m.contains(r) && pieces(r, range).contains(p)
}

/// What remains of the rectangles without `range`.
pub open spec fn without(m: Set<TableRange>, range: TableRange) -> Set<TableRange> {
    Set::new(|p: TableRange| exists|r: TableRange| #[trigger] left_of(m, r, range, p))
}

/// What every set of unlocked rectangles is: proper ones that share no cell.
pub open spec fn disjoint(m: Set<TableRange>) -> bool {
    &&& forall|r: TableRange| #[trigger] m.contains(r) ==> r.proper()
    &&& forall|r: TableRange, s: TableRange| #[trigger]
        m.contains(r) && #[trigger] m.contains(s) && r != s ==> !r.meets(s)
}

impl Default for LockMap {
    fn default() -> (m: LockMap)
        ensures
            m.wf(),
            m@ == Set::<TableRange>::empty(),
    {
        LockMap::new()
    }
}

/// How a piece of one rectangle is away from a piece of another.
proof fn lemma_pieces_apart(a: TableRange, b: TableRange, p: TableRange, q: TableRange)
    requires
        !a.meets(b),
        inside(p, a),
        inside(q, b),
    ensures
        !p.meets(q),
        !q.meets(p),
{
}

impl LockMap {
    pub closed spec fn wf(self) -> bool {
        self.unlocked.wf() && apart(self.unlocked@)
    }

    proof fn lemma_listed(self)
        requires
            self.wf(),
        ensures
            disjoint(self@),
            self.unlocked@.no_duplicates(),
            self@.finite(),
            self@.len() == self.unlocked@.len(),
    {
        let v = self.unlocked@;
        assert forall|r: TableRange| #[trigger] self@.contains(r) implies r.proper() by {
            let i = choose|i: int| 0 <= i < v.len() && v[i] == r;
            self.unlocked.lemma_proper(i);
        }
        assert forall|r: TableRange, s: TableRange| #[trigger]
            self@.contains(r) && #[trigger] self@.contains(s) && r != s implies !r.meets(s) by {
            let i = choose|i: int| 0 <= i < v.len() && v[i] == r;
            let j = choose|j: int| 0 <= j < v.len() && v[j] == s;
            if i < j {
                assert(!v[i].meets(v[j]));
            } else {
                assert(!v[j].meets(v[i]));
            }
        }
        assert forall|i: int, j: int| 0 <= i < v.len() && 0 <= j < v.len() && i != j implies v[i]
            != v[j] by {
            self.unlocked.lemma_proper(i);
            if i < j {
                assert(!v[i].meets(v[j]));
            } else {
                assert(!v[j].meets(v[i]));
            }
        }
        v.unique_seq_to_set();
    }

    /// The unlocked rectangles share no cell, at all times.
    pub proof fn unlocked_rectangles_are_disjoint(self)
        requires
            self.wf(),
        ensures
            disjoint(self@),
            self@.finite(),
    {
        self.lemma_listed();
    }

    pub fn new() -> (m: LockMap)
        ensures
            m.wf(),
            m@ == Set::<TableRange>::empty(),
    {
        let m = LockMap { unlocked: RegionIndex::new() };
        assert(m@ =~= Set::<TableRange>::empty());
        m
    }

    pub fn is_empty(&self) -> (b: bool)
        requires
            self.wf(),
        ensures
            b == (self@ == Set::<TableRange>::empty()),
    {
        proof {
            if self.unlocked@.len() > 0 {
                assert(self@.contains(self.unlocked@[0]));
            } else {
                assert(self@ =~= Set::<TableRange>::empty());
            }
        }
        self.unlocked.len() == 0
    }

    /// Number of stored rectangles, not a cell count.
    pub fn len(&self) -> (n: usize)
        requires
            self.wf(),
        ensures
            n == self@.len(),
    {
        proof {
            self.lemma_listed();
        }
        self.unlocked.len()
    }

    /// Every unlocked rectangle once.
    pub fn ranges(&self) -> (r: &[TableRange])
        requires
            self.wf(),
        ensures
            r@.to_set() == self@,
            r@.no_duplicates(),
    {
        proof {
            self.lemma_listed();
        }
        self.unlocked.as_slice()
    }

    pub fn heap_bytes(&self) -> (n: usize)
        requires
            self.wf(),
        ensures
            regions_take(self@, n),
    {
        proof {
            self.lemma_listed();
        }
        self.unlocked.heap_bytes()
    }

    /// Is this cell unlocked?
    pub fn is_unlocked(&self, cell: CellRef) -> (b: bool)
        requires
            self.wf(),
        ensures
            b == is_open(self@, cell),
    {
        let ghost v = self.unlocked@;
        match self.unlocked.find_cell(cell.row, cell.col) {
            Some(i) => {
                assert(self@.contains(v[i as int]));
                assert(opens(self@, v[i as int], cell));
                true
            },
            None => {
                proof {
                    assert forall|r: TableRange| !(#[trigger] opens(self@, r, cell)) by {
                        if self@.contains(r) {
                            let k = choose|k: int| 0 <= k < v.len() && v[k] == r;
                            assert(!v[k].has(cell.row, cell.col));
                        }
                    }
                }
                false
            },
        }
    }

    /// Mark a rectangle unlocked.
    pub fn unlock(&mut self, range: TableRange)
        requires
            old(self).wf(),
            range.proper(),
        ensures
            final(self).wf(),
            final(self)@ == without(old(self)@, range).insert(range),
    {
        self.lock(range);
        let ghost was = self.unlocked@;
        let ghost rest = self@;
        proof {
            self.lemma_listed();
            old(self).lemma_listed();
            assert forall|i: int| 0 <= i < was.len() implies !(#[trigger] was[i]).meets(
                range,
            ) by {
                assert(rest.contains(was[i]));
                let r = choose|r: TableRange| #[trigger] left_of(old(self)@, r, range, was[i]);
                pieces_are_what_is_left(r, range);
                let k = choose|k: int|
                    0 <= k < pieces(r, range).len() && pieces(r, range)[k] == was[i];
                assert(!pieces(r, range)[k].meets(range));
            }
        }
        self.unlocked.add(range);
        proof {
            lemma_with_one_more(was, range, self.unlocked@);
            assert forall|x: TableRange| self@.contains(x) <==> rest.insert(range).contains(
                x,
            ) by {
                assert(self.unlocked@.contains(x) <==> was.contains(x) || x == range);
            }
            assert(self@ =~= rest.insert(range));
        }
    }

    /// Mark a rectangle locked again, by subtracting it from the unlocked set.
    ///
    /// Splitting a rectangle around a hole yields at most four pieces, so the
    /// map's size is bounded by the number of gestures the user made.
    pub fn lock(&mut self, range: TableRange)
        requires
            old(self).wf(),
            range.proper(),
        ensures
            final(self).wf(),
            final(self)@ == without(old(self)@, range),
    {
        let ghost m = self@;
        let ghost v = self.unlocked@;
        proof {
            self.lemma_listed();
            assert forall|k: int| 0 <= k < v.len() implies (#[trigger] v[k]).proper() by {
                self.unlocked.lemma_proper(k);
            }
        }
        let n: usize = self.unlocked.len();
        let mut rest = RegionIndex::new();
        let mut i: usize = 0;
        while i < n
            invariant
                i <= n == v.len(),
                self.wf(),
                v == self.unlocked@,
                range.proper(),
                forall|k: int| 0 <= k < v.len() ==> (#[trigger] v[k]).proper(),
                rest.wf(),
                apart(rest@),
                forall|p: TableRange| #[trigger]
                    rest@.contains(p) <==> exists|k: int|
                        0 <= k < i && #[trigger] piece_of(v, k, range, p),
            decreases n - i,
        {
            let a = *self.unlocked.get(i);
            let cut = subtract(a, range);
            proof {
                pieces_are_what_is_left(a, range);
            }
            push_pieces(&mut rest, &cut, Ghost(v), Ghost(i as int), Ghost(range));
            i = i + 1;
        }
        self.unlocked = rest;
        proof {
            assert forall|p: TableRange| self@.contains(p) <==> without(m, range).contains(p) by {
                if self@.contains(p) {
                    let k = choose|k: int| 0 <= k < n && #[trigger] piece_of(v, k, range, p);
                    assert(v.contains(v[k]));
                    assert(left_of(m, v[k], range, p));
                }
                if without(m, range).contains(p) {
                    let r = choose|r: TableRange| #[trigger] left_of(m, r, range, p);
                    let k = choose|k: int| 0 <= k < v.len() && v[k] == r;
                    assert(piece_of(v, k, range, p));
                }
            }
            assert(self@ =~= without(m, range));
        }
    }

    /// Forget every exception: the whole sheet is locked again.
    pub fn clear(&mut self)
        ensures
            final(self).wf(),
            final(self)@ == Set::<TableRange>::empty(),
    {
        self.unlocked = RegionIndex::new();
        assert(self@ =~= Set::<TableRange>::empty());
    }
}

/// `p` is a piece of rectangle `k` without `range`.
spec fn piece_of(v: Seq<TableRange>, k: int, range: TableRange, p: TableRange) -> bool {
    pieces(v[k], range).contains(p)
}

/// Adds the pieces of rectangle `i` to those of the rectangles before it.
fn push_pieces(
    rest: &mut RegionIndex,
    cut: &Vec<TableRange>,
    Ghost(v): Ghost<Seq<TableRange>>,
    Ghost(i): Ghost<int>,
    Ghost(range): Ghost<TableRange>,
)
    requires
        old(rest).wf(),
        apart(old(rest)@),
        0 <= i < v.len(),
        apart(v),
        forall|k: int| 0 <= k < v.len() ==> (#[trigger] v[k]).proper(),
        range.proper(),
        cut@ == pieces(v[i], range),
        forall|p: TableRange| #[trigger]
            old(rest)@.contains(p) <==> exists|k: int|
                0 <= k < i && #[trigger] piece_of(v, k, range, p),
    ensures
        final(rest).wf(),
        apart(final(rest)@),
        forall|p: TableRange| #[trigger]
            final(rest)@.contains(p) <==> exists|k: int|
                0 <= k < i + 1 && #[trigger] piece_of(v, k, range, p),
{
    let ghost before = rest@;
    let mut j: usize = 0;
    proof {
        pieces_are_what_is_left(v[i], range);
    }
    while j < cut.len()
        invariant
            j <= cut@.len(),
            rest.wf(),
            apart(rest@),
            0 <= i < v.len(),
            apart(v),
            forall|k: int| 0 <= k < v.len() ==> (#[trigger] v[k]).proper(),
            range.proper(),
            cut@ == pieces(v[i], range),
            apart(cut@),
            forall|l: int| 0 <= l < cut@.len() ==> (#[trigger] cut@[l]).proper(),
            forall|l: int| 0 <= l < cut@.len() ==> inside(#[trigger] cut@[l], v[i]),
            forall|p: TableRange| #[trigger]
                before.contains(p) <==> exists|k: int|
                    0 <= k < i && #[trigger] piece_of(v, k, range, p),
            forall|p: TableRange| #[trigger]
                rest@.contains(p) <==> before.contains(p) || cut@.subrange(0, j as int).contains(p),
        decreases cut@.len() - j,
    {
        let p = cut[j];
        let ghost was = rest@;
        proof {
            assert forall|l: int| 0 <= l < was.len() implies !(#[trigger] was[l]).meets(p) by {
                assert(was.contains(was[l]));
                if before.contains(was[l]) {
                    let k = choose|k: int| 0 <= k < i && #[trigger] piece_of(v, k, range, was[l]);
                    pieces_are_what_is_left(v[k], range);
                    let z = choose|z: int|
                        0 <= z < pieces(v[k], range).len() && pieces(v[k], range)[z] == was[l];
                    assert(inside(pieces(v[k], range)[z], v[k]));
                    assert(!v[k].meets(v[i]));
                    lemma_pieces_apart(v[k], v[i], was[l], p);
                } else {
                    let t = cut@.subrange(0, j as int);
                    let z = choose|z: int| 0 <= z < t.len() && t[z] == was[l];
                    assert(!cut@[z].meets(cut@[j as int]));
                }
            }
        }
        rest.add(p);
        proof {
            lemma_with_one_more(was, p, rest@);
            let t = cut@.subrange(0, j as int);
            let t2 = cut@.subrange(0, j + 1);
            assert forall|x: TableRange| #[trigger]
                rest@.contains(x) <==> before.contains(x) || t2.contains(x) by {
                assert(rest@.contains(x) <==> was.contains(x) || x == p);
                if t.contains(x) {
                    let z = choose|z: int| 0 <= z < t.len() && t[z] == x;
                    assert(t2[z] == x);
                }
                assert(t2[j as int] == p);
                if t2.contains(x) {
                    let z = choose|z: int| 0 <= z < t2.len() && t2[z] == x;
                    if z < j {
                        assert(t[z] == x);
                    }
                }
            }
        }
        j = j + 1;
    }
    proof {
        assert(cut@.subrange(0, cut@.len() as int) =~= cut@);
        assert forall|p: TableRange| #[trigger]
            rest@.contains(p) <==> exists|k: int|
                0 <= k < i + 1 && #[trigger] piece_of(v, k, range, p) by {
            if cut@.contains(p) {
                assert(piece_of(v, i, range, p));
            }
            if before.contains(p) {
                let k = choose|k: int| 0 <= k < i && #[trigger] piece_of(v, k, range, p);
                assert(piece_of(v, k, range, p));
            }
        }
    }
}

// -------------------------------------------------------------- allowances --

/// What a protected sheet still permits. Everything defaults to "not allowed"
/// except selecting cells.
#[derive(Clone, Copy, Debug, PartialEq, Eq, Structural)]
pub struct Allowances {
    pub select_locked_cells: bool,
    pub select_unlocked_cells: bool,
    pub format_cells: bool,
    pub insert_rows: bool,
    pub insert_columns: bool,
    pub delete_rows: bool,
    pub delete_columns: bool,
    pub sort: bool,
    pub use_autofilter: bool,
}

impl Allowances {
    pub open spec fn usual() -> Allowances {
        Allowances {
            select_locked_cells: true,
            select_unlocked_cells: true,
            format_cells: false,
            insert_rows: false,
            insert_columns: false,
            delete_rows: false,
            delete_columns: false,
            sort: false,
            use_autofilter: false,
        }
    }

    pub open spec fn permits(self, action: Action) -> bool {
        match action {
            Action::FormatCells => self.format_cells,
            Action::InsertRows => self.insert_rows,
            Action::InsertColumns => self.insert_columns,
            Action::DeleteRows => self.delete_rows,
            Action::DeleteColumns => self.delete_columns,
            Action::Sort => self.sort,
            Action::Filter => self.use_autofilter,
            Action::SelectLocked => self.select_locked_cells,
        }
    }
}

impl Default for Allowances {
    fn default() -> (a: Allowances)
        ensures
            a == Allowances::usual(),
    {
        Allowances {
            select_locked_cells: true,
            select_unlocked_cells: true,
            format_cells: false,
            insert_rows: false,
            insert_columns: false,
            delete_rows: false,
            delete_columns: false,
            sort: false,
            use_autofilter: false,
        }
    }
}

/// An action a protected sheet or workbook can refuse.
#[derive(Clone, Copy, Debug, PartialEq, Eq, Structural)]
pub enum Action {
    FormatCells,
    InsertRows,
    InsertColumns,
    DeleteRows,
    DeleteColumns,
    Sort,
    Filter,
    SelectLocked,
}

impl Action {
    pub open spec fn gerund_spec(self) -> Seq<char> {
        match self {
            Action::FormatCells => "formatting cells"@,
            Action::InsertRows => "inserting rows"@,
            Action::InsertColumns => "inserting columns"@,
            Action::DeleteRows => "deleting rows"@,
            Action::DeleteColumns => "deleting columns"@,
            Action::Sort => "sorting"@,
            Action::Filter => "filtering"@,
            Action::SelectLocked => "selecting locked cells"@,
        }
    }

    /// The name to put in a sentence: "sorting is turned off ...".
    pub fn gerund(self) -> (s: &'static str)
        ensures
            s@ == self.gerund_spec(),
    {
        match self {
            Action::FormatCells => "formatting cells",
            Action::InsertRows => "inserting rows",
            Action::InsertColumns => "inserting columns",
            Action::DeleteRows => "deleting rows",
            Action::DeleteColumns => "deleting columns",
            Action::Sort => "sorting",
            Action::Filter => "filtering",
            Action::SelectLocked => "selecting locked cells",
        }
    }
}

/// A structural change to the workbook itself.
#[derive(Clone, Copy, Debug, PartialEq, Eq, Structural)]
pub enum StructureOp {
    AddSheet,
    DeleteSheet,
    RenameSheet,
    ReorderSheet,
}

impl StructureOp {
    pub open spec fn gerund_spec(self) -> Seq<char> {
        match self {
            StructureOp::AddSheet => "adding a sheet"@,
            StructureOp::DeleteSheet => "deleting a sheet"@,
            StructureOp::RenameSheet => "renaming a sheet"@,
            StructureOp::ReorderSheet => "reordering the sheets"@,
        }
    }

    pub fn gerund(self) -> (s: &'static str)
        ensures
            s@ == self.gerund_spec(),
    {
        match self {
            StructureOp::AddSheet => "adding a sheet",
            StructureOp::DeleteSheet => "deleting a sheet",
            StructureOp::RenameSheet => "renaming a sheet",
            StructureOp::ReorderSheet => "reordering the sheets",
        }
    }
}

/// Why something was refused, phrased so it can be shown verbatim.
#[derive(Clone, Copy, Debug, PartialEq, Eq, Structural)]
pub enum Denied {
    /// The cell is locked and the sheet is protected.
    LockedCell(CellRef),
    /// The sheet is protected and this allowance is off.
    SheetAction(Action),
    /// The workbook's structure is protected.
    Structure(StructureOp),
}

impl Denied {
    pub open spec fn message_spec(self) -> Seq<char> {
        match self {
            Denied::LockedCell(c) => c.a1()
                + " is locked and this sheet is protected — unprotect the sheet, or unlock this cell, to edit it"@,
            Denied::SheetAction(a) => "this sheet is protected and "@ + a.gerund_spec()
                + " is not among the actions it allows"@,
            Denied::Structure(op) => "the workbook's structure is protected, so "@
                + op.gerund_spec() + " is not allowed"@,
        }
    }

    pub fn message(&self) -> (s: String)
        ensures
            s@ == self.message_spec(),
    {
        match self {
            Denied::LockedCell(c) => {
                let mut s = c.to_a1();
                s.push_str(
                    " is locked and this sheet is protected — unprotect the sheet, or unlock this cell, to edit it",
                );
                s
            },
            Denied::SheetAction(a) => {
                let mut s = String::new();
                s.push_str("this sheet is protected and ");
                s.push_str(a.gerund());
                s.push_str(" is not among the actions it allows");
                assert(s@ =~= self.message_spec());
                s
            },
            Denied::Structure(op) => {
                let mut s = String::new();
                s.push_str("the workbook's structure is protected, so ");
                s.push_str(op.gerund());
                s.push_str(" is not allowed");
                assert(s@ =~= self.message_spec());
                s
            },
        }
    }
}

/// What the UI should say about one cell. Locked on an unprotected sheet is a
/// state of its own: the cell carries the flag and the flag does nothing.
#[derive(Clone, Copy, Debug, PartialEq, Eq, Structural)]
pub enum CellLockState {
    /// Locked, but the sheet is not protected, so the flag has no effect yet.
    LockedButSheetUnprotected,
    /// Locked on a protected sheet: edits are refused.
    LockedAndEnforced,
    /// Explicitly unlocked; editable whether or not the sheet is protected.
    Unlocked,
}

impl CellLockState {
    pub open spec fn explain_spec(self) -> Seq<char> {
        match self {
            CellLockState::LockedButSheetUnprotected =>
                "Locked — but this sheet is not protected, so the lock does nothing yet. Protect the sheet to make it bite."@,
            CellLockState::LockedAndEnforced =>
                "Locked, and this sheet is protected: edits here are refused."@,
            CellLockState::Unlocked =>
                "Unlocked — editable even while the sheet is protected."@,
        }
    }

    /// One sentence for the status bar.
    pub fn explain(self) -> (s: &'static str)
        ensures
            s@ == self.explain_spec(),
    {
        match self {
            CellLockState::LockedButSheetUnprotected =>
                "Locked — but this sheet is not protected, so the lock does nothing yet. Protect the sheet to make it bite.",
            CellLockState::LockedAndEnforced =>
                "Locked, and this sheet is protected: edits here are refused.",
            CellLockState::Unlocked => "Unlocked — editable even while the sheet is protected.",
        }
    }
}

// -------------------------------------------------------- sheet protection --

/// One sheet's protection state, bounded by the number of unlocked rectangles.
#[derive(Debug, PartialEq, Clone)]
pub struct SheetProtection {
    enabled: bool,
    hash: PasswordHash,
    allow: Allowances,
    unlocked: LockMap,
}

#[verifier::ext_equal]
pub ghost struct SheetProtectionView {
    pub enabled: bool,
    pub hash: PasswordHash,
    pub allow: Allowances,
    pub unlocked: Set<TableRange>,
}

impl View for SheetProtection {
    type V = SheetProtectionView;

    closed spec fn view(&self) -> SheetProtectionView {
        SheetProtectionView {
            enabled: self.enabled,
            hash: self.hash,
            allow: self.allow,
            unlocked: self.unlocked@,
        }
    }
}

impl SheetProtectionView {
    pub open spec fn fresh() -> SheetProtectionView {
        SheetProtectionView {
            enabled: false,
            hash: PasswordHash(0),
            allow: Allowances::usual(),
            unlocked: Set::empty(),
        }
    }

    pub open spec fn state_of(self, cell: CellRef) -> CellLockState {
        if is_open(self.unlocked, cell) {
            CellLockState::Unlocked
        } else if self.enabled {
            CellLockState::LockedAndEnforced
        } else {
            CellLockState::LockedButSheetUnprotected
        }
    }

    pub open spec fn deny_edit(self, cell: CellRef) -> Option<Denied> {
        if self.enabled && !is_open(self.unlocked, cell) {
            Some(Denied::LockedCell(cell))
        } else {
            None
        }
    }

    pub open spec fn deny_action(self, action: Action) -> Option<Denied> {
        if self.enabled && !self.allow.permits(action) {
            Some(Denied::SheetAction(action))
        } else {
            None
        }
    }
}

impl Default for SheetProtection {
    fn default() -> (p: SheetProtection)
        ensures
            p.wf(),
            p@ == SheetProtectionView::fresh(),
    {
        SheetProtection::new()
    }
}

impl SheetProtection {
    pub closed spec fn wf(self) -> bool {
        self.unlocked.wf()
    }

    pub fn new() -> (p: SheetProtection)
        ensures
            p.wf(),
            p@ == SheetProtectionView::fresh(),
    {
        SheetProtection {
            enabled: false,
            hash: PasswordHash(0),
            allow: Allowances::default(),
            unlocked: LockMap::new(),
        }
    }

    /// Is the sheet protected right now?
    pub fn is_enabled(&self) -> (b: bool)
        ensures
            b == self@.enabled,
    {
        self.enabled
    }

    pub fn hash(&self) -> (h: PasswordHash)
        ensures
            h == self@.hash,
    {
        self.hash
    }

    pub fn allow(&self) -> (a: &Allowances)
        ensures
            *a == self@.allow,
    {
        &self.allow
    }

    pub fn unlocked(&self) -> (m: &LockMap)
        requires
            self.wf(),
        ensures
            m.wf(),
            m@ == self@.unlocked,
    {
        &self.unlocked
    }

    /// Turn protection on with a set of allowances and an optional password.
    pub fn protect(&mut self, allow: Allowances, hash: PasswordHash)
        requires
            old(self).wf(),
        ensures
            final(self).wf(),
            final(self)@ == (SheetProtectionView { enabled: true, allow, hash, ..old(self)@ }),
    {
        self.enabled = true;
        self.allow = allow;
        self.hash = hash;
    }

    /// Turn protection off. Keeps the lock flags: they are a property of the
    /// cells. Takes no password on purpose.
    pub fn unprotect(&mut self)
        requires
            old(self).wf(),
        ensures
            final(self).wf(),
            final(self)@ == (SheetProtectionView {
                enabled: false,
                hash: PasswordHash(0),
                ..old(self)@
            }),
    {
        self.enabled = false;
        self.hash = PasswordHash(0);
    }

    /// Mark a range unlocked, editable while protected.
    pub fn unlock_range(&mut self, range: TableRange)
        requires
            old(self).wf(),
            range.proper(),
        ensures
            final(self).wf(),
            final(self)@ == (SheetProtectionView {
                unlocked: without(old(self)@.unlocked, range).insert(range),
                ..old(self)@
            }),
    {
        self.unlocked.unlock(range);
    }

    /// Mark a range locked again, the default state.
    pub fn lock_range(&mut self, range: TableRange)
        requires
            old(self).wf(),
            range.proper(),
        ensures
            final(self).wf(),
            final(self)@ == (SheetProtectionView {
                unlocked: without(old(self)@.unlocked, range),
                ..old(self)@
            }),
    {
        self.unlocked.lock(range);
    }

    /// Is this cell carrying the lock flag? Independent of whether the sheet is
    /// protected.
    pub fn is_locked(&self, cell: CellRef) -> (b: bool)
        requires
            self.wf(),
        ensures
            b == !is_open(self@.unlocked, cell),
    {
        !self.unlocked.is_unlocked(cell)
    }

    /// The three-way state to report in the UI.
    pub fn state_of(&self, cell: CellRef) -> (s: CellLockState)
        requires
            self.wf(),
        ensures
            s == self@.state_of(cell),
    {
        if !self.is_locked(cell) {
            CellLockState::Unlocked
        } else if self.enabled {
            CellLockState::LockedAndEnforced
        } else {
            CellLockState::LockedButSheetUnprotected
        }
    }

    /// Why an edit to `cell` must be refused, or `None` to let it through.
    pub fn deny_edit(&self, cell: CellRef) -> (r: Option<Denied>)
        requires
            self.wf(),
        ensures
            r == self@.deny_edit(cell),
    {
        if self.enabled && self.is_locked(cell) {
            Some(Denied::LockedCell(cell))
        } else {
            None
        }
    }

    /// Why `action` must be refused, or `None`.
    pub fn deny_action(&self, action: Action) -> (r: Option<Denied>)
        ensures
            r == self@.deny_action(action),
    {
        if !self.enabled {
            return None;
        }
        let allowed = match action {
            Action::FormatCells => self.allow.format_cells,
            Action::InsertRows => self.allow.insert_rows,
            Action::InsertColumns => self.allow.insert_columns,
            Action::DeleteRows => self.allow.delete_rows,
            Action::DeleteColumns => self.allow.delete_columns,
            Action::Sort => self.allow.sort,
            Action::Filter => self.allow.use_autofilter,
            Action::SelectLocked => self.allow.select_locked_cells,
        };
        if allowed {
            None
        } else {
            Some(Denied::SheetAction(action))
        }
    }

    pub fn heap_bytes(&self) -> (n: usize)
        requires
            self.wf(),
        ensures
            regions_take(self@.unlocked, n),
    {
        self.unlocked.heap_bytes()
    }
}

// ----------------------------------------------------- workbook protection --

/// Protection of the workbook's structure: the tab strip, not the cells.
#[derive(Clone, Copy, Debug, PartialEq, Eq, Structural)]
pub struct WorkbookProtection {
    /// Sheets cannot be added, deleted, renamed or reordered.
    pub structure: bool,
    /// The window layout is locked. Carried, so that writing a file back does not
    /// drop it; nothing consults it.
    pub windows: bool,
    pub hash: PasswordHash,
}

impl Default for WorkbookProtection {
    fn default() -> (p: WorkbookProtection)
        ensures
            p == (WorkbookProtection { structure: false, windows: false, hash: PasswordHash(0) }),
    {
        WorkbookProtection { structure: false, windows: false, hash: PasswordHash(0) }
    }
}

impl WorkbookProtection {
    pub fn new() -> (p: WorkbookProtection)
        ensures
            p == (WorkbookProtection { structure: false, windows: false, hash: PasswordHash(0) }),
    {
        WorkbookProtection { structure: false, windows: false, hash: PasswordHash(0) }
    }

    pub fn structure_locked(&self) -> (b: bool)
        ensures
            b == self.structure,
    {
        self.structure
    }

    pub fn windows_locked(&self) -> (b: bool)
        ensures
            b == self.windows,
    {
        self.windows
    }

    pub fn hash(&self) -> (h: PasswordHash)
        ensures
            h == self.hash,
    {
        self.hash
    }

    /// Is anything at all protected?
    pub fn is_active(&self) -> (b: bool)
        ensures
            b == (self.structure || self.windows || self.hash.0 != 0),
    {
        self.structure || self.windows || !self.hash.is_none()
    }

    pub fn protect_structure(&mut self, hash: PasswordHash)
        ensures
            *final(self) == (WorkbookProtection { structure: true, hash, ..*old(self) }),
    {
        self.structure = true;
        self.hash = hash;
    }

    pub fn set_windows(&mut self, on: bool)
        ensures
            *final(self) == (WorkbookProtection { windows: on, ..*old(self) }),
    {
        self.windows = on;
    }

    pub fn unprotect(&mut self)
        ensures
            *final(self) == (WorkbookProtection {
                structure: false,
                windows: false,
                hash: PasswordHash(0),
            }),
    {
        self.structure = false;
        self.windows = false;
        self.hash = PasswordHash(0);
    }

    /// Restore state read from a file.
    pub fn from_parts(structure: bool, windows: bool, hash: PasswordHash) -> (p: WorkbookProtection)
        ensures
            p == (WorkbookProtection { structure, windows, hash }),
    {
        WorkbookProtection { structure, windows, hash }
    }

    /// Why a structural change must be refused, or `None`.
    pub fn deny(&self, op: StructureOp) -> (r: Option<Denied>)
        ensures
            r == if self.structure {
                Some(Denied::Structure(op))
            } else {
                None
            },
    {
        if self.structure {
            Some(Denied::Structure(op))
        } else {
            None
        }
    }
}

// ------------------------------------------------------------------- laws --

/// Locking a range locks exactly its cells and leaves every other cell alone.
pub proof fn locking_locks_exactly_the_range(m: Set<TableRange>, range: TableRange, cell: CellRef)
    requires
        disjoint(m),
        range.proper(),
    ensures
        is_open(without(m, range), cell) <==> is_open(m, cell) && !range.has(cell.row, cell.col),
{
    let rest = without(m, range);
    if is_open(rest, cell) {
        let p = choose|p: TableRange| #[trigger] opens(rest, p, cell);
        let r = choose|r: TableRange| #[trigger] left_of(m, r, range, p);
        pieces_are_what_is_left(r, range);
        let k = choose|k: int| 0 <= k < pieces(r, range).len() && pieces(r, range)[k] == p;
        assert(pieces(r, range)[k].has(cell.row, cell.col));
        assert(any_has(pieces(r, range), cell.row, cell.col));
        assert(opens(m, r, cell));
    }
    if is_open(m, cell) && !range.has(cell.row, cell.col) {
        let r = choose|r: TableRange| #[trigger] opens(m, r, cell);
        pieces_are_what_is_left(r, range);
        assert(any_has(pieces(r, range), cell.row, cell.col));
        let k = choose|k: int|
            0 <= k < pieces(r, range).len() && (#[trigger] pieces(r, range)[k]).has(
                cell.row,
                cell.col,
            );
        let p = pieces(r, range)[k];
        assert(pieces(r, range).contains(p));
        assert(left_of(m, r, range, p));
        assert(opens(rest, p, cell));
    }
}

/// Unlocking a range unlocks exactly its cells and leaves every other cell alone.
pub proof fn unlocking_unlocks_exactly_the_range(
    m: Set<TableRange>,
    range: TableRange,
    cell: CellRef,
)
    requires
        disjoint(m),
        range.proper(),
    ensures
        is_open(without(m, range).insert(range), cell) <==> is_open(m, cell) || range.has(
            cell.row,
            cell.col,
        ),
{
    locking_locks_exactly_the_range(m, range, cell);
    let rest = without(m, range);
    let now = rest.insert(range);
    if is_open(now, cell) {
        let p = choose|p: TableRange| #[trigger] opens(now, p, cell);
        if p != range {
            assert(opens(rest, p, cell));
        }
    }
    if range.has(cell.row, cell.col) {
        assert(opens(now, range, cell));
    } else if is_open(m, cell) {
        let p = choose|p: TableRange| #[trigger] opens(rest, p, cell);
        assert(opens(now, p, cell));
    }
}

proof fn lemma_untouched(m: Set<TableRange>, range: TableRange)
    requires
        forall|r: TableRange| #[trigger] m.contains(r) ==> !r.meets(range),
    ensures
        without(m, range) == m,
{
    assert forall|p: TableRange| without(m, range).contains(p) <==> m.contains(p) by {
        if m.contains(p) {
            assert(pieces(p, range)[0] == p);
            assert(left_of(m, p, range, p));
        }
        if without(m, range).contains(p) {
            let r = choose|r: TableRange| #[trigger] left_of(m, r, range, p);
            assert(m.contains(r));
            assert(pieces(r, range) =~= seq![r]);
        }
    }
    assert(without(m, range) =~= m);
}

/// Unlocking a block twice does not grow the map, and locking it again leaves no
/// fragments behind: the map is what it was without the block, and just what it was
/// where nothing of the block was unlocked before.
pub proof fn unlocking_again_changes_nothing(m: Set<TableRange>, range: TableRange)
    requires
        disjoint(m),
        range.proper(),
    ensures
        ({
            let once = without(m, range).insert(range);
            &&& without(once, range).insert(range) == once
            &&& without(once, range) == without(m, range)
            &&& (forall|r: TableRange| #[trigger] m.contains(r) ==> !r.meets(range)) ==> without(
                once,
                range,
            ) == m
        }),
{
    let rest = without(m, range);
    let once = rest.insert(range);
    assert forall|p: TableRange| #[trigger] rest.contains(p) implies !p.meets(range) by {
        let r = choose|r: TableRange| #[trigger] left_of(m, r, range, p);
        pieces_are_what_is_left(r, range);
        let k = choose|k: int| 0 <= k < pieces(r, range).len() && pieces(r, range)[k] == p;
        assert(!pieces(r, range)[k].meets(range));
    }
    lemma_untouched(rest, range);
    assert(pieces(range, range) =~= Seq::empty());
    assert forall|p: TableRange| without(once, range).contains(p) <==> rest.contains(p) by {
        if rest.contains(p) {
            assert(without(rest, range).contains(p));
            let r = choose|r: TableRange| #[trigger] left_of(rest, r, range, p);
            assert(left_of(once, r, range, p));
        }
        if without(once, range).contains(p) {
            let r = choose|r: TableRange| #[trigger] left_of(once, r, range, p);
            assert(r != range);
            assert(left_of(rest, r, range, p));
            assert(without(rest, range).contains(p));
        }
    }
    assert(without(once, range) =~= rest);
    if forall|r: TableRange| #[trigger] m.contains(r) ==> !r.meets(range) {
        lemma_untouched(m, range);
    }
}

/// A refusal always comes with a protected sheet: where the sheet is not
/// protected, nothing is refused, and unlocked cells are never refused.
pub proof fn an_unprotected_sheet_refuses_nothing(
    p: SheetProtectionView,
    cell: CellRef,
    action: Action,
)
    ensures
        !p.enabled ==> p.deny_edit(cell) is None && p.deny_action(action) is None,
        is_open(p.unlocked, cell) ==> p.deny_edit(cell) is None,
        p.deny_edit(cell) is Some <==> p.state_of(cell) == CellLockState::LockedAndEnforced,
{
}

proof fn lemma_hex_digit(d: int)
    requires
        0 <= d < 16,
    ensures
        hex_value(hex_char(d)) == Some(d as u8),
        !whitespace(hex_char(d)),
        hex_char(d) != '+',
{
}

proof fn lemma_hex_run(s: Seq<char>, c: char, d: u8)
    requires
        hex_value(c) == Some(d),
    ensures
        hex_run_value(s.push(c)) == hex_run_value(s) * 16 + d,
{
    assert(s.push(c).drop_last() =~= s);
}

/// A hash's hex spelling reads back as the hash.
pub proof fn hex_reads_back(h: PasswordHash)
    ensures
        parsed(hex4(h.0)) == Some(h),
{
    let n = h.0 as int;
    let a = n / 4096;
    let b = n / 256 % 16;
    let c = n / 16 % 16;
    let d = n % 16;
    lemma_hex_digit(a);
    lemma_hex_digit(b);
    lemma_hex_digit(c);
    lemma_hex_digit(d);
    let s = hex4(h.0);
    assert(trimmed(s) == s) by {
        assert(trim_start(s) == s);
        assert(trim_end(s) == s);
    }
    assert(all_hex(s));
    let e = Seq::<char>::empty();
    lemma_hex_run(e, s[0], a as u8);
    lemma_hex_run(e.push(s[0]), s[1], b as u8);
    lemma_hex_run(e.push(s[0]).push(s[1]), s[2], c as u8);
    lemma_hex_run(e.push(s[0]).push(s[1]).push(s[2]), s[3], d as u8);
    assert(s =~= e.push(s[0]).push(s[1]).push(s[2]).push(s[3]));
    assert(hex_run_value(e) == 0);
    assert(((a * 16 + b) * 16 + c) * 16 + d == n);
}

/// Turning a number of fifteen bits round by one place doubles it, and what falls off
/// the top comes back at the bottom.
pub proof fn a_turn_doubles_and_wraps(h: u16)
    requires
        h < 0x8000,
    ensures
        h < 0x4000 ==> rotated(h) == 2 * h,
        h >= 0x4000 ==> rotated(h) == 2 * h - 0x7fff,
{
    assert(h < 0x4000u16 ==> (((h >> 14) & 1) | ((h << 1) & 0x7fff)) == 2 * h) by (bit_vector);
    assert(h >= 0x4000u16 && h < 0x8000u16 ==> (((h >> 14) & 1) | ((h << 1) & 0x7fff)) == 2 * h
        - 0x7fff) by (bit_vector);
}

/// The hash of a short password mixes each character moved up by its place, the number
/// of characters, and a fixed number.
pub proof fn a_short_password_mixes_its_characters(a: u8, b: u8, c: u8)
    requires
        a < 128,
        b < 128,
        c < 128,
    ensures
        hash_of(Seq::empty()) == 0,
        hash_of(seq![a]) == ((2 * a) as u16) ^ 1 ^ 0xce4b,
        hash_of(seq![a, b]) == ((2 * a) as u16) ^ ((4 * b) as u16) ^ 2 ^ 0xce4b,
        hash_of(seq![a, b, c]) == ((2 * a) as u16) ^ ((4 * b) as u16) ^ ((8 * c) as u16) ^ 3
            ^ 0xce4b,
{
    let x = a as u16;
    let y = b as u16;
    let z = c as u16;
    let none = Seq::<u8>::empty();
    assert(seq![c].subrange(1, 1) =~= none);
    assert(seq![b].subrange(1, 1) =~= none);
    assert(seq![a].subrange(1, 1) =~= none);
    assert(seq![b, c].subrange(1, 2) =~= seq![c]);
    assert(seq![a, b].subrange(1, 2) =~= seq![b]);
    assert(seq![a, b, c].subrange(1, 3) =~= seq![b, c]);
    assert(accumulated(none) == 0);
    assert(accumulated(seq![a]) == rotated(0) ^ x);
    assert(accumulated(seq![b]) == rotated(0) ^ y);
    assert(accumulated(seq![c]) == rotated(0) ^ z);
    assert(accumulated(seq![a, b]) == rotated(accumulated(seq![b])) ^ x);
    assert(accumulated(seq![b, c]) == rotated(accumulated(seq![c])) ^ y);
    assert(accumulated(seq![a, b, c]) == rotated(accumulated(seq![b, c])) ^ x);
    lemma_mixed(x, y, z);
}

proof fn lemma_mixed(x: u16, y: u16, z: u16)
    by (bit_vector)
    requires
        x < 128,
        y < 128,
        z < 128,
    ensures
        (rotated(rotated(0) ^ x) ^ 1 ^ 0xce4b) == ((2 * x) as u16) ^ 1 ^ 0xce4b,
        (rotated(rotated(rotated(0) ^ y) ^ x) ^ 2 ^ 0xce4b) == ((2 * x) as u16) ^ ((4 * y) as u16)
            ^ 2 ^ 0xce4b,
        (rotated(rotated(rotated(rotated(0) ^ z) ^ y) ^ x) ^ 3 ^ 0xce4b) == ((2 * x) as u16) ^ ((4
            * y) as u16) ^ ((8 * z) as u16) ^ 3 ^ 0xce4b,
{
}

/// Each action asks for its own allowance and no other, and selecting is all that is
/// allowed where nothing was said.
pub proof fn each_action_has_its_own_allowance(a: Allowances, view: SheetProtectionView)
    ensures
        a.permits(Action::FormatCells) == a.format_cells,
        a.permits(Action::InsertRows) == a.insert_rows,
        a.permits(Action::InsertColumns) == a.insert_columns,
        a.permits(Action::DeleteRows) == a.delete_rows,
        a.permits(Action::DeleteColumns) == a.delete_columns,
        a.permits(Action::Sort) == a.sort,
        a.permits(Action::Filter) == a.use_autofilter,
        a.permits(Action::SelectLocked) == a.select_locked_cells,
        forall|x: Action| #[trigger]
            Allowances::usual().permits(x) <==> x is SelectLocked,
{
}

/// An edit is refused exactly where the lock bites: the sheet is protected and the cell
/// is in no unlocked rectangle. Nothing else is refused, and what is refused is named.
pub proof fn an_edit_is_refused_where_the_lock_bites(
    p: SheetProtectionView,
    cell: CellRef,
    action: Action,
)
    ensures
        p.deny_edit(cell) is Some <==> p.state_of(cell) is LockedAndEnforced,
        p.deny_edit(cell) is Some ==> p.deny_edit(cell) == Some(Denied::LockedCell(cell)),
        p.state_of(cell) is Unlocked <==> exists|r: TableRange|
            #![trigger p.unlocked.contains(r)]
            p.unlocked.contains(r) && r.first_row <= cell.row <= r.last_row && r.first_col
                <= cell.col <= r.last_col,
        p.state_of(cell) is LockedAndEnforced ==> p.enabled,
        p.state_of(cell) is LockedButSheetUnprotected ==> !p.enabled,
        p.deny_action(action) == if p.enabled && !p.allow.permits(action) {
            Some(Denied::SheetAction(action))
        } else {
            None
        },
{
    if p.state_of(cell) is Unlocked {
        let r = choose|r: TableRange| #[trigger] opens(p.unlocked, r, cell);
        assert(p.unlocked.contains(r));
    }
    if exists|r: TableRange|
        #![trigger p.unlocked.contains(r)]
        p.unlocked.contains(r) && r.first_row <= cell.row <= r.last_row && r.first_col <= cell.col
            <= r.last_col {
        let r = choose|r: TableRange|
            #![trigger p.unlocked.contains(r)]
            p.unlocked.contains(r) && r.first_row <= cell.row <= r.last_row && r.first_col
                <= cell.col <= r.last_col;
        assert(opens(p.unlocked, r, cell));
    }
}

/// What was refused is called by its name.
pub proof fn a_refusal_says_what_was_refused(a: Action, op: StructureOp, cell: CellRef)
    ensures
        Denied::LockedCell(cell).message_spec().subrange(0, cell.a1().len() as int) == cell.a1(),
        Denied::SheetAction(a).message_spec() == "this sheet is protected and "@ + (match a {
            Action::FormatCells => "formatting cells"@,
            Action::InsertRows => "inserting rows"@,
            Action::InsertColumns => "inserting columns"@,
            Action::DeleteRows => "deleting rows"@,
            Action::DeleteColumns => "deleting columns"@,
            Action::Sort => "sorting"@,
            Action::Filter => "filtering"@,
            Action::SelectLocked => "selecting locked cells"@,
        }) + " is not among the actions it allows"@,
        Denied::Structure(op).message_spec() == "the workbook's structure is protected, so "@ + (
        match op {
            StructureOp::AddSheet => "adding a sheet"@,
            StructureOp::DeleteSheet => "deleting a sheet"@,
            StructureOp::RenameSheet => "renaming a sheet"@,
            StructureOp::ReorderSheet => "reordering the sheets"@,
        }) + " is not allowed"@,
{
    assert(Denied::LockedCell(cell).message_spec().subrange(0, cell.a1().len() as int)
        =~= cell.a1());
}

} // verus!
