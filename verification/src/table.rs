//! Shared small types: cell addresses, rectangles and colours.

use crate::text::{decimal, digits_count, digits_count_the_number, push_decimal};
use vstd::prelude::*;

verus! {

/// One cell's address, zero-based.
#[derive(Clone, Copy, Debug, PartialEq, Eq, Hash, PartialOrd, Ord, Structural)]
pub struct CellRef {
    pub row: u32,
    pub col: u32,
}

/// Column letters: A, .., Z, AA, AB, ..
pub open spec fn column_letters(col: nat) -> Seq<char>
    decreases col,
{
    let last = (65 + col % 26) as char;
    if col < 26 {
        seq![last]
    } else {
        column_letters((col / 26 - 1) as nat).push(last)
    }
}

fn push_letters(s: &mut String, col: u32)
    ensures
        final(s)@ == old(s)@ + column_letters(col as nat),
    decreases col,
{
    let b: u8 = 65 + (col % 26) as u8;
    if col >= 26 {
        push_letters(s, col / 26 - 1);
    }
    s.push(b as char);
    assert(s@ =~= old(s)@ + column_letters(col as nat));
}

impl CellRef {
    pub fn new(row: u32, col: u32) -> (r: CellRef)
        ensures
            r == (CellRef { row, col }),
    {
        CellRef { row, col }
    }

    /// The address as a user reads it: column letters, then the one-based row.
    pub open spec fn a1(self) -> Seq<char> {
        column_letters(self.col as nat) + decimal((self.row + 1) as nat)
    }

    pub fn to_a1(&self) -> (s: String)
        ensures
            s@ == self.a1(),
    {
        let mut s = String::new();
        push_letters(&mut s, self.col);
        push_decimal(&mut s, self.row as u64 + 1);
        assert(s@ =~= self.a1());
        s
    }
}

/// A rectangle of cells, both corners included.
#[derive(Clone, Copy, Debug, PartialEq, Eq, Hash, Structural)]
pub struct TableRange {
    pub first_row: u32,
    pub first_col: u32,
    pub last_row: u32,
    pub last_col: u32,
}

impl TableRange {
    pub fn new(first_row: u32, first_col: u32, last_row: u32, last_col: u32) -> (r: TableRange)
        ensures
            r == (TableRange { first_row, first_col, last_row, last_col }),
    {
        TableRange { first_row, first_col, last_row, last_col }
    }

    pub open spec fn has(self, row: u32, col: u32) -> bool {
        self.first_row <= row <= self.last_row && self.first_col <= col <= self.last_col
    }

    /// Neither corner is past the other.
    pub open spec fn proper(self) -> bool {
        self.first_row <= self.last_row && self.first_col <= self.last_col
    }

    pub open spec fn meets(self, other: TableRange) -> bool {
        self.first_row <= other.last_row && other.first_row <= self.last_row && self.first_col
            <= other.last_col && other.first_col <= self.last_col
    }

    pub fn contains(&self, row: u32, col: u32) -> (b: bool)
        ensures
            b == self.has(row, col),
    {
        row >= self.first_row && row <= self.last_row && col >= self.first_col && col
            <= self.last_col
    }

    /// Whether the two rectangles share a cell.
    pub fn overlaps(&self, other: &TableRange) -> (b: bool)
        ensures
            b == self.meets(*other),
    {
        self.first_row <= other.last_row && other.first_row <= self.last_row && self.first_col
            <= other.last_col && other.first_col <= self.last_col
    }

    /// Two proper rectangles meet exactly when some cell lies in both.
    pub proof fn meeting_is_sharing_a_cell(a: TableRange, b: TableRange)
        requires
            a.proper(),
            b.proper(),
        ensures
            a.meets(b) <==> exists|row: u32, col: u32|
                #![trigger a.has(row, col)]
                a.has(row, col) && b.has(row, col),
    {
        if a.meets(b) {
            let row = if a.first_row >= b.first_row {
                a.first_row
            } else {
                b.first_row
            };
            let col = if a.first_col >= b.first_col {
                a.first_col
            } else {
                b.first_col
            };
            assert(a.has(row, col) && b.has(row, col));
        }
    }
}

/// A colour.
#[derive(Clone, Copy, Debug, PartialEq, Eq, Structural)]
pub struct Rgb(pub u8, pub u8, pub u8);

/// The value of a hexadecimal digit, in either case.
pub open spec fn hex_value(c: char) -> Option<u8> {
    if '0' <= c <= '9' {
        Some((c as u32 - 48) as u8)
    } else if 'a' <= c <= 'f' {
        Some((c as u32 - 87) as u8)
    } else if 'A' <= c <= 'F' {
        Some((c as u32 - 55) as u8)
    } else {
        None
    }
}

pub fn hex_digit(c: char) -> (r: Option<u8>)
    ensures
        r == hex_value(c),
        r matches Some(d) ==> d < 16,
{
    if '0' <= c && c <= '9' {
        Some(c as u8 - 48)
    } else if 'a' <= c && c <= 'f' {
        Some(c as u8 - 87)
    } else if 'A' <= c && c <= 'F' {
        Some(c as u8 - 55)
    } else {
        None
    }
}

/// The capital hexadecimal digit for `d`.
pub open spec fn hex_char(d: int) -> char {
    if d < 10 {
        (48 + d) as char
    } else {
        (55 + d) as char
    }
}

pub fn to_hex_char(d: u8) -> (c: char)
    requires
        d < 16,
    ensures
        c == hex_char(d as int),
{
    let b: u8 = if d < 10 {
        48 + d
    } else {
        55 + d
    };
    b as char
}

/// Two hexadecimal digits.
pub open spec fn hex_byte(b: u8) -> Seq<char> {
    seq![hex_char(b as int / 16), hex_char(b as int % 16)]
}

impl Rgb {
    /// Six hexadecimal digits: red, green, blue.
    pub open spec fn hex(self) -> Seq<char> {
        hex_byte(self.0) + hex_byte(self.1) + hex_byte(self.2)
    }

    pub open spec fn byte_at(s: Seq<char>, i: int) -> Option<u8> {
        match (hex_value(s[i]), hex_value(s[i + 1])) {
            (Some(a), Some(b)) => Some((a * 16 + b) as u8),
            _ => None,
        }
    }

    /// The colour that six hexadecimal digits spell.
    pub open spec fn of_hex(s: Seq<char>) -> Option<Rgb> {
        if s.len() == 6 {
            match (Self::byte_at(s, 0), Self::byte_at(s, 2), Self::byte_at(s, 4)) {
                (Some(r), Some(g), Some(b)) => Some(Rgb(r, g, b)),
                _ => None,
            }
        } else {
            None
        }
    }

    fn read_byte(cs: &Vec<char>, i: usize) -> (r: Option<u8>)
        requires
            i + 1 < cs.len(),
        ensures
            r == Self::byte_at(cs@, i as int),
    {
        match (hex_digit(cs[i]), hex_digit(cs[i + 1])) {
            (Some(a), Some(b)) => Some(a * 16 + b),
            _ => None,
        }
    }

    pub fn from_hex(cs: &Vec<char>) -> (r: Option<Rgb>)
        ensures
            r == Self::of_hex(cs@),
    {
        if cs.len() != 6 {
            return None;
        }
        match (Self::read_byte(cs, 0), Self::read_byte(cs, 2), Self::read_byte(cs, 4)) {
            (Some(r), Some(g), Some(b)) => Some(Rgb(r, g, b)),
            _ => None,
        }
    }

    pub fn push_hex(&self, s: &mut String)
        ensures
            final(s)@ == old(s)@ + self.hex(),
    {
        s.push(to_hex_char(self.0 / 16));
        s.push(to_hex_char(self.0 % 16));
        s.push(to_hex_char(self.1 / 16));
        s.push(to_hex_char(self.1 % 16));
        s.push(to_hex_char(self.2 / 16));
        s.push(to_hex_char(self.2 % 16));
        assert(s@ =~= old(s)@ + self.hex());
    }

    pub fn to_hex(&self) -> (s: String)
        ensures
            s@ == self.hex(),
    {
        let mut s = String::new();
        self.push_hex(&mut s);
        assert(s@ =~= self.hex());
        s
    }

    /// A colour written in hexadecimal reads back as itself.
    pub proof fn hex_round_trips(self)
        ensures
            Self::of_hex(self.hex()) == Some(self),
    {
        let s = self.hex();
        assert(s.len() == 6);
        Self::lemma_byte(self.0);
        Self::lemma_byte(self.1);
        Self::lemma_byte(self.2);
        assert(s[0] == hex_byte(self.0)[0] && s[1] == hex_byte(self.0)[1]);
        assert(s[2] == hex_byte(self.1)[0] && s[3] == hex_byte(self.1)[1]);
        assert(s[4] == hex_byte(self.2)[0] && s[5] == hex_byte(self.2)[1]);
    }

    proof fn lemma_byte(b: u8)
        ensures
            hex_value(hex_byte(b)[0]) == Some((b / 16) as u8),
            hex_value(hex_byte(b)[1]) == Some((b % 16) as u8),
    {
    }
}

/// The number that column letters count: A to Z for one to twenty-six, each further
/// letter twenty-six times what stands before it.
pub open spec fn letters_count(s: Seq<char>) -> int
    decreases s.len(),
{
    if s.len() == 0 {
        0
    } else {
        26 * letters_count(s.drop_last()) + (s.last() as int - 64)
    }
}

/// A column's letters are capitals and count it, the first column being one.
pub proof fn column_letters_count_the_column(col: nat)
    ensures
        letters_count(column_letters(col)) == col + 1,
        column_letters(col).len() > 0,
        forall|i: int|
            0 <= i < column_letters(col).len() ==> 'A' <= #[trigger] column_letters(col)[i]
                && column_letters(col)[i] <= 'Z',
    decreases col,
{
    let s = column_letters(col);
    let last = (65 + col % 26) as char;
    assert(last as int == 65 + col % 26);
    if col < 26 {
        assert(s.drop_last() =~= Seq::<char>::empty());
        assert(letters_count(s.drop_last()) == 0);
        assert(s.last() == last);
    } else {
        let before = column_letters((col / 26 - 1) as nat);
        column_letters_count_the_column((col / 26 - 1) as nat);
        assert(s.drop_last() =~= before);
        assert(s.last() == last);
        assert forall|i: int| 0 <= i < s.len() implies 'A' <= #[trigger] s[i] && s[i] <= 'Z' by {
            if i < before.len() {
                assert(s[i] == before[i]);
            }
        }
    }
}

/// An address is the letters of its column followed by the digits of its row, the first
/// row being one.
pub proof fn an_address_counts_columns_and_rows_from_one(cell: CellRef)
    ensures
        exists|k: int|
            {
                &&& 0 < k < cell.a1().len()
                &&& letters_count(#[trigger] cell.a1().subrange(0, k)) == cell.col + 1
                &&& digits_count(cell.a1().subrange(k, cell.a1().len() as int)) == cell.row + 1
                &&& cell.a1()[k] != '0'
            },
{
    let letters = column_letters(cell.col as nat);
    let digits = decimal((cell.row + 1) as nat);
    column_letters_count_the_column(cell.col as nat);
    digits_count_the_number((cell.row + 1) as nat);
    let s = cell.a1();
    let k = letters.len() as int;
    assert(s.subrange(0, k) =~= letters);
    assert(s.subrange(k, s.len() as int) =~= digits);
    assert(s[k] == digits[0]);
}

} // verus!
