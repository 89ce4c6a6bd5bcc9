//! Number-format codes: parsing, section choice and text layout.
//!
//! A format code like `#,##0.00;[Red](#,##0.00);"—";@` is sections separated
//! by `;`: positive, negative, zero, and text. A section is chosen by the
//! value's sign, falling back in a fixed order when fewer than four are given.
//! Each section is a sequence of literal runs and placeholders.
//!
//! A 200M-row column has one format code. [`NumFmt`] parses it once; rendering
//! walks a small pre-built structure.
//!
//! Some codes are not modelled: fractions (`# ?/?`), `[DBNum]` numerals, and
//! whatever else a bracket may hold that is not known here. Such a section is a
//! passthrough: the value shows as a plain number rather than as a wrong one.
//!
//! The digits of a number and the calendar parts of a date come from the
//! caller, who does the arithmetic; everything that is text happens here.

use crate::text::{
    ascii_lower, ascii_lowered, ascii_upper, chars_of, decimal, find, find_from, float_literal,
    has_at, is_at, is_float_literal, is_word, lower_all, parse_whole, push_decimal, push_range,
    string_from, string_of, to_ascii_lower, to_ascii_upper, trim_range, trimmed, whole_number,
};
use crate::value::F64;
use vstd::prelude::*;

pub mod codes;
pub mod figures;

verus! {

/// Colours named directly in a format code.
#[derive(Clone, Copy, Debug, PartialEq, Eq, Structural)]
pub enum FmtColor {
    Black,
    Blue,
    Cyan,
    Green,
    Magenta,
    Red,
    White,
    Yellow,
}

impl FmtColor {
    pub open spec fn rgb_spec(self) -> (u8, u8, u8) {
        match self {
            FmtColor::Black => (0x20, 0x20, 0x20),
            FmtColor::Blue => (0x2f, 0x6f, 0xd0),
            FmtColor::Cyan => (0x2a, 0x9d, 0xa8),
            FmtColor::Green => (0x2e, 0x9e, 0x4f),
            FmtColor::Magenta => (0xb5, 0x4c, 0xa8),
            FmtColor::Red => (0xd6, 0x38, 0x3c),
            FmtColor::White => (0xf0, 0xf0, 0xf0),
            FmtColor::Yellow => (0xc9, 0x9a, 0x1e),
        }
    }

    /// RGB for painting, chosen to stay legible on light and dark themes.
    pub fn rgb(self) -> (r: (u8, u8, u8))
        ensures
            r == self.rgb_spec(),
    {
        match self {
            FmtColor::Black => (0x20, 0x20, 0x20),
            FmtColor::Blue => (0x2f, 0x6f, 0xd0),
            FmtColor::Cyan => (0x2a, 0x9d, 0xa8),
            FmtColor::Green => (0x2e, 0x9e, 0x4f),
            FmtColor::Magenta => (0xb5, 0x4c, 0xa8),
            FmtColor::Red => (0xd6, 0x38, 0x3c),
            FmtColor::White => (0xf0, 0xf0, 0xf0),
            FmtColor::Yellow => (0xc9, 0x9a, 0x1e),
        }
    }

    /// An index into the legacy palette; those past the common ones are black.
    pub open spec fn palette(n: nat) -> FmtColor {
        if n == 2 {
            FmtColor::White
        } else if n == 3 {
            FmtColor::Red
        } else if n == 4 {
            FmtColor::Green
        } else if n == 5 {
            FmtColor::Blue
        } else if n == 6 {
            FmtColor::Yellow
        } else if n == 7 {
            FmtColor::Magenta
        } else if n == 8 {
            FmtColor::Cyan
        } else {
            FmtColor::Black
        }
    }

    /// The colour that `s` names: by word, or as `Color` and a palette index.
    pub open spec fn named(s: Seq<char>) -> Option<FmtColor> {
        let t = ascii_lowered(s);
        if t == "black"@ {
            Some(FmtColor::Black)
        } else if t == "blue"@ {
            Some(FmtColor::Blue)
        } else if t == "cyan"@ {
            Some(FmtColor::Cyan)
        } else if t == "green"@ {
            Some(FmtColor::Green)
        } else if t == "magenta"@ {
            Some(FmtColor::Magenta)
        } else if t == "red"@ {
            Some(FmtColor::Red)
        } else if t == "white"@ {
            Some(FmtColor::White)
        } else if t == "yellow"@ {
            Some(FmtColor::Yellow)
        } else if has_at(t, 0, "color"@) {
            match whole_number(trimmed(t.subrange(5, t.len() as int)), 255) {
                Some(n) => Some(FmtColor::palette(n)),
                None => None,
            }
        } else {
            None
        }
    }

    pub fn parse(cs: &Vec<char>) -> (r: Option<FmtColor>)
        ensures
            r == FmtColor::named(cs@),
    {
        let t = lower_all(cs);
        if is_word(&t, "black") {
            return Some(FmtColor::Black);
        }
        if is_word(&t, "blue") {
            return Some(FmtColor::Blue);
        }
        if is_word(&t, "cyan") {
            return Some(FmtColor::Cyan);
        }
        if is_word(&t, "green") {
            return Some(FmtColor::Green);
        }
        if is_word(&t, "magenta") {
            return Some(FmtColor::Magenta);
        }
        if is_word(&t, "red") {
            return Some(FmtColor::Red);
        }
        if is_word(&t, "white") {
            return Some(FmtColor::White);
        }
        if is_word(&t, "yellow") {
            return Some(FmtColor::Yellow);
        }
        if !is_at(&t, 0, "color") {
            return None;
        }
        proof {
            reveal_strlit("color");
        }
        let rest = trim_range(&t, 5, t.len());
        match parse_whole(&rest, 255) {
            Some(n) => Some(
                match n {
                    2 => FmtColor::White,
                    3 => FmtColor::Red,
                    4 => FmtColor::Green,
                    5 => FmtColor::Blue,
                    6 => FmtColor::Yellow,
                    7 => FmtColor::Magenta,
                    8 => FmtColor::Cyan,
                    _ => FmtColor::Black,
                },
            ),
            None => None,
        }
    }
}

#[derive(Clone, Copy, Debug, PartialEq, Eq, Structural)]
pub enum CmpOp {
    Lt,
    Le,
    Gt,
    Ge,
    Eq,
    Ne,
}

/// A `[>=100]`-style gate on a section. The limit is kept as written.
#[derive(Debug, PartialEq, Eq, Clone)]
pub struct Condition {
    pub op: CmpOp,
    pub limit: String,
}

impl View for Condition {
    type V = (CmpOp, Seq<char>);

    open spec fn view(&self) -> (CmpOp, Seq<char>) {
        (self.op, self.limit@)
    }
}

/// Which operator `t` starts with, and how many characters it takes.
pub open spec fn operator(t: Seq<char>) -> Option<(CmpOp, int)> {
    if has_at(t, 0, ">="@) {
        Some((CmpOp::Ge, 2))
    } else if has_at(t, 0, "<="@) {
        Some((CmpOp::Le, 2))
    } else if has_at(t, 0, "<>"@) {
        Some((CmpOp::Ne, 2))
    } else if has_at(t, 0, ">"@) {
        Some((CmpOp::Gt, 1))
    } else if has_at(t, 0, "<"@) {
        Some((CmpOp::Lt, 1))
    } else if has_at(t, 0, "="@) {
        Some((CmpOp::Eq, 1))
    } else {
        None
    }
}

/// An operator and then a number.
pub open spec fn condition_of(t: Seq<char>) -> Option<(CmpOp, Seq<char>)> {
    match operator(t) {
        Some((op, n)) => {
            let rest = trimmed(t.subrange(n, t.len() as int));
            if float_literal(rest) {
                Some((op, rest))
            } else {
                None
            }
        },
        None => None,
    }
}

fn parse_condition(t: &Vec<char>) -> (r: Option<Condition>)
    ensures
        match r {
            Some(c) => condition_of(t@) == Some(c@),
            None => condition_of(t@) is None,
        },
{
    proof {
        reveal_strlit(">=");
        reveal_strlit("<=");
        reveal_strlit("<>");
        reveal_strlit(">");
        reveal_strlit("<");
        reveal_strlit("=");
    }
    let op: CmpOp;
    let n: usize;
    if is_at(t, 0, ">=") {
        op = CmpOp::Ge;
        n = 2;
    } else if is_at(t, 0, "<=") {
        op = CmpOp::Le;
        n = 2;
    } else if is_at(t, 0, "<>") {
        op = CmpOp::Ne;
        n = 2;
    } else if is_at(t, 0, ">") {
        op = CmpOp::Gt;
        n = 1;
    } else if is_at(t, 0, "<") {
        op = CmpOp::Lt;
        n = 1;
    } else if is_at(t, 0, "=") {
        op = CmpOp::Eq;
        n = 1;
    } else {
        return None;
    }
    let rest = trim_range(t, n, t.len());
    if is_float_literal(&rest) {
        Some(Condition { op, limit: string_of(&rest) })
    } else {
        None
    }
}

impl CmpOp {
    /// Whether `v` stands in this relation to `limit`, numerically.
    pub open spec fn holds_spec(self, v: F64, limit: F64) -> bool {
        match self {
            CmpOp::Lt => v.lt_spec(limit),
            CmpOp::Le => v.lt_spec(limit) || v.eq_num_spec(limit),
            CmpOp::Gt => limit.lt_spec(v),
            CmpOp::Ge => limit.lt_spec(v) || v.eq_num_spec(limit),
            CmpOp::Eq => v.eq_num_spec(limit),
            CmpOp::Ne => !v.eq_num_spec(limit),
        }
    }

    pub fn holds(self, v: F64, limit: F64) -> (b: bool)
        ensures
            b == self.holds_spec(v, limit),
    {
        match self {
            CmpOp::Lt => v.less_than(limit),
            CmpOp::Le => v.less_than(limit) || v.num_eq(limit),
            CmpOp::Gt => limit.less_than(v),
            CmpOp::Ge => limit.less_than(v) || v.num_eq(limit),
            CmpOp::Eq => v.num_eq(limit),
            CmpOp::Ne => !v.num_eq(limit),
        }
    }
}

/// A date/time token.
#[derive(Clone, Copy, Debug, PartialEq, Eq, Structural)]
pub enum DtToken {
    Year2,
    Year4,
    Month1,
    Month2,
    MonthAbbr,
    MonthFull,
    Day1,
    Day2,
    DayAbbr,
    DayFull,
    Hour1,
    Hour2,
    Minute1,
    Minute2,
    Second1,
    Second2,
    /// `[h]`, `[m]`, `[s]` — elapsed time, not clamped to a clock.
    ElapsedHour,
    ElapsedMinute,
    ElapsedSecond,
    /// 12-hour marker; renders `AM`/`PM`.
    AmPm,
}

/// The numeric portion of a section.
#[derive(Clone, Copy, Debug, PartialEq, Eq, Structural)]
pub struct NumSpec {
    /// Minimum integer digits, from `0` placeholders.
    pub int_zeros: usize,
    /// Minimum decimal digits, from `0` after the point.
    pub dec_zeros: usize,
    /// Maximum decimal digits, counting `0`, `#`, and `?`.
    pub dec_max: usize,
    /// Thousands separators, from a `,` between digit placeholders.
    pub grouped: bool,
    /// Trailing commas scale by 1000 each.
    pub scale_commas: usize,
    /// Percent tokens multiply by 100, once each.
    pub percents: usize,
    /// Scientific notation, with the exponent's minimum digits.
    pub exponent: Option<usize>,
}

impl NumSpec {
    /// No placeholder at all.
    pub open spec fn blank() -> NumSpec {
        NumSpec {
            int_zeros: 0,
            dec_zeros: 0,
            dec_max: 0,
            grouped: false,
            scale_commas: 0,
            percents: 0,
            exponent: None,
        }
    }
}

impl Default for NumSpec {
    fn default() -> (r: NumSpec)
        ensures
            r == NumSpec::blank(),
    {
        NumSpec {
            int_zeros: 0,
            dec_zeros: 0,
            dec_max: 0,
            grouped: false,
            scale_commas: 0,
            percents: 0,
            exponent: None,
        }
    }
}

/// One element of a section.
#[derive(Debug, PartialEq, Eq, Clone)]
enum Part {
    /// Text emitted verbatim.
    Literal(String),
    /// The numeric body: digits, grouping, decimals, and any `%` scaling.
    Number(NumSpec),
    /// A date/time token.
    DateTime(DtToken),
    /// `@` — the raw text of a text cell.
    TextSlot,
    /// `*c` — repeat `c` to fill the column. Rendered as a single space.
    Fill(char),
    /// `_c` — skip the width of `c`. Rendered as a single space.
    Skip,
}

/// One element of a section, as contracts speak of it.
pub enum PartView {
    Literal(Seq<char>),
    Number(NumSpec),
    DateTime(DtToken),
    TextSlot,
    Fill(char),
    Skip,
}

impl View for Part {
    type V = PartView;

    closed spec fn view(&self) -> PartView {
        match self {
            Part::Literal(s) => PartView::Literal(s@),
            Part::Number(n) => PartView::Number(*n),
            Part::DateTime(t) => PartView::DateTime(*t),
            Part::TextSlot => PartView::TextSlot,
            Part::Fill(c) => PartView::Fill(*c),
            Part::Skip => PartView::Skip,
        }
    }
}

spec fn part_views(parts: Seq<Part>) -> Seq<PartView> {
    Seq::new(parts.len(), |i: int| parts[i]@)
}

// ------------------------------------------------------------- sections --

/// What a scan for section breaks remembers: whether it is inside quotes, and
/// whether inside a bracket.
pub struct Inside {
    pub quote: bool,
    pub bracket: bool,
}

pub open spec fn outside() -> Inside {
    Inside { quote: false, bracket: false }
}

/// What follows `c`, which is not an escape.
pub open spec fn inside_after(at: Inside, c: char) -> Inside {
    if c == '"' {
        Inside { quote: !at.quote, ..at }
    } else if c == '[' && !at.quote {
        Inside { bracket: true, ..at }
    } else if c == ']' && !at.quote {
        Inside { bracket: false, ..at }
    } else {
        at
    }
}

/// The sections of `code` from `i` on, `cur` being what the current one holds
/// so far. A `;` breaks unless it is quoted, in a bracket or escaped.
pub open spec fn sections_from(code: Seq<char>, i: int, at: Inside, cur: Seq<char>) -> Seq<
    Seq<char>,
>
    decreases code.len() - i,
{
    if i < 0 || i >= code.len() {
        seq![cur]
    } else {
        let c = code[i];
        if c == '\\' {
            if i + 1 < code.len() {
                sections_from(code, i + 2, at, cur.push(c).push(code[i + 1]))
            } else {
                sections_from(code, i + 1, at, cur.push(c))
            }
        } else if c == ';' && !at.quote && !at.bracket {
            seq![cur] + sections_from(code, i + 1, at, Seq::empty())
        } else {
            sections_from(code, i + 1, inside_after(at, c), cur.push(c))
        }
    }
}

pub open spec fn sections_of(code: Seq<char>) -> Seq<Seq<char>> {
    sections_from(code, 0, outside(), Seq::empty())
}

/// The pieces with a `;` between each two.
pub open spec fn joined(pieces: Seq<Seq<char>>) -> Seq<char>
    decreases pieces.len(),
{
    if pieces.len() == 0 {
        Seq::empty()
    } else if pieces.len() == 1 {
        pieces[0]
    } else {
        pieces[0] + seq![';'] + joined(pieces.subrange(1, pieces.len() as int))
    }
}

proof fn lemma_sections_join(code: Seq<char>, i: int, at: Inside, cur: Seq<char>)
    requires
        0 <= i <= code.len(),
    ensures
        sections_from(code, i, at, cur).len() > 0,
        joined(sections_from(code, i, at, cur)) == cur + code.subrange(i, code.len() as int),
    decreases code.len() - i,
{
    let n = code.len() as int;
    let all = sections_from(code, i, at, cur);
    if i >= n {
        assert(cur + code.subrange(i, n) =~= cur);
    } else {
        let c = code[i];
        if c == '\\' {
            if i + 1 < n {
                lemma_sections_join(code, i + 2, at, cur.push(c).push(code[i + 1]));
                assert(cur.push(c).push(code[i + 1]) + code.subrange(i + 2, n) =~= cur
                    + code.subrange(i, n));
            } else {
                lemma_sections_join(code, i + 1, at, cur.push(c));
                assert(cur.push(c) + code.subrange(i + 1, n) =~= cur + code.subrange(i, n));
            }
        } else if c == ';' && !at.quote && !at.bracket {
            let rest = sections_from(code, i + 1, at, Seq::empty());
            lemma_sections_join(code, i + 1, at, Seq::empty());
            assert(all.subrange(1, all.len() as int) =~= rest);
            assert(cur + seq![';'] + (Seq::<char>::empty() + code.subrange(i + 1, n)) =~= cur
                + code.subrange(i, n));
        } else {
            lemma_sections_join(code, i + 1, inside_after(at, c), cur.push(c));
            assert(cur.push(c) + code.subrange(i + 1, n) =~= cur + code.subrange(i, n));
        }
    }
}

/// Splitting loses nothing: the sections, joined by `;`, are the code.
pub proof fn sections_join_to_the_code(code: Seq<char>)
    ensures
        sections_of(code).len() > 0,
        joined(sections_of(code)) == code,
{
    lemma_sections_join(code, 0, outside(), Seq::empty());
    assert(Seq::<char>::empty() + code.subrange(0, code.len() as int) =~= code);
}

spec fn char_views(v: Seq<Vec<char>>) -> Seq<Seq<char>> {
    Seq::new(v.len(), |i: int| v[i]@)
}

/// Split on `;` outside quotes, brackets and escapes.
fn split_sections(code: &Vec<char>) -> (out: Vec<Vec<char>>)
    ensures
        char_views(out@) == sections_of(code@),
{
    let mut out: Vec<Vec<char>> = Vec::new();
    let mut cur: Vec<char> = Vec::new();
    let mut quote = false;
    let mut bracket = false;
    let mut i: usize = 0;
    assert(char_views(out@) =~= Seq::<Seq<char>>::empty());
    assert(char_views(out@) + sections_of(code@) =~= sections_of(code@));
    while i < code.len()
        invariant
            i <= code@.len(),
            char_views(out@) + sections_from(code@, i as int, Inside { quote, bracket }, cur@)
                == sections_of(code@),
        decreases code@.len() - i,
    {
        let c = code[i];
        if c == '\\' {
            cur.push(c);
            if i + 1 < code.len() {
                cur.push(code[i + 1]);
                i = i + 2;
            } else {
                i = i + 1;
            }
        } else if c == ';' && !quote && !bracket {
            let ghost before = out@;
            let ghost piece = cur@;
            out.push(cur);
            cur = Vec::new();
            i = i + 1;
            proof {
                assert(char_views(out@) =~= char_views(before) + seq![piece]);
                let rest = sections_from(
                    code@,
                    i as int,
                    Inside { quote, bracket },
                    Seq::empty(),
                );
                assert(cur@ =~= Seq::<char>::empty());
                assert(char_views(before) + (seq![piece] + rest) =~= char_views(out@) + rest);
            }
        } else {
            if c == '"' {
                quote = !quote;
            } else if c == '[' && !quote {
                bracket = true;
            } else if c == ']' && !quote {
                bracket = false;
            }
            cur.push(c);
            i = i + 1;
        }
    }
    let ghost before = out@;
    let ghost piece = cur@;
    out.push(cur);
    assert(char_views(out@) =~= char_views(before) + seq![piece]);
    out
}

// --------------------------------------------------------------- tokens --

/// One step of reading a section. Ranges are of the section's characters.
#[derive(Clone, Copy, Debug, PartialEq, Eq, Structural)]
pub enum Tok {
    /// Read past, with no effect.
    Nothing,
    /// Characters that stand for themselves.
    Literal { from: usize, to: usize },
    /// What a bracket holds.
    Bracket { from: usize, to: usize },
    /// A digit placeholder: `0`, `#` or `?`.
    Digit(char),
    /// A point, and whether anything follows it.
    Point { at: usize, more: bool },
    /// A comma, and whether a digit placeholder follows somewhere.
    Comma { at: usize, more: bool },
    Percent { at: usize },
    /// A slash, and whether a denominator follows.
    Slash { at: usize, more: bool },
    /// `E+` or `E-` and then this many digit placeholders.
    Exponent { digits: usize },
    TextSlot,
    Fill(char),
    Skip,
    Date(DtToken),
}

pub open spec fn placeholder(c: char) -> bool {
    c == '0' || c == '#' || c == '?'
}

fn is_placeholder(c: char) -> (b: bool)
    ensures
        b == placeholder(c),
{
    c == '0' || c == '#' || c == '?'
}

/// Whether a digit placeholder stands at `i` or later.
pub open spec fn placeholder_from(cs: Seq<char>, i: int) -> bool {
    exists|k: int| i <= k < cs.len() && placeholder(#[trigger] cs[k])
}

fn any_placeholder(cs: &Vec<char>, from: usize) -> (b: bool)
    requires
        from <= cs@.len(),
    ensures
        b == placeholder_from(cs@, from as int),
{
    let mut i: usize = from;
    while i < cs.len()
        invariant
            from <= i <= cs@.len(),
            forall|k: int| from <= k < i ==> !placeholder(#[trigger] cs@[k]),
        decreases cs@.len() - i,
    {
        if is_placeholder(cs[i]) {
            return true;
        }
        i = i + 1;
    }
    false
}

/// Whether what follows from `i` on can be a denominator: a digit that is spelled
/// out right there, or a digit placeholder somewhere.
pub open spec fn denominator_from(cs: Seq<char>, i: int) -> bool {
    (i < cs.len() && '1' <= cs[i] <= '9') || placeholder_from(cs, i)
}

fn is_denominator(cs: &Vec<char>, from: usize) -> (b: bool)
    requires
        from <= cs@.len(),
    ensures
        b == denominator_from(cs@, from as int),
{
    (from < cs.len() && '1' <= cs[from] && cs[from] <= '9') || any_placeholder(cs, from)
}

/// Where the digit placeholders that start at `i` end.
pub open spec fn placeholder_run(cs: Seq<char>, i: int) -> int
    decreases cs.len() - i,
{
    if 0 <= i < cs.len() && placeholder(cs[i]) {
        placeholder_run(cs, i + 1)
    } else {
        i
    }
}

fn skip_placeholders(cs: &Vec<char>, from: usize) -> (to: usize)
    requires
        from <= cs@.len(),
    ensures
        to == placeholder_run(cs@, from as int),
        from <= to <= cs@.len(),
{
    let mut i: usize = from;
    while i < cs.len() && is_placeholder(cs[i])
        invariant
            from <= i <= cs@.len(),
            placeholder_run(cs@, i as int) == placeholder_run(cs@, from as int),
        decreases cs@.len() - i,
    {
        i = i + 1;
    }
    i
}

/// Where the run of the letter `l`, in either case, that starts at `i` ends.
pub open spec fn letter_run(cs: Seq<char>, l: char, i: int) -> int
    decreases cs.len() - i,
{
    if 0 <= i < cs.len() && ascii_lower(cs[i]) == l {
        letter_run(cs, l, i + 1)
    } else {
        i
    }
}

fn skip_letter(cs: &Vec<char>, l: char, from: usize) -> (to: usize)
    requires
        from <= cs@.len(),
    ensures
        to == letter_run(cs@, l, from as int),
        from <= to <= cs@.len(),
        from < cs@.len() && ascii_lower(cs@[from as int]) == l ==> from < to,
{
    let mut i: usize = from;
    while i < cs.len() && to_ascii_lower(cs[i]) == l
        invariant
            from <= i <= cs@.len(),
            letter_run(cs@, l, i as int) == letter_run(cs@, l, from as int),
        decreases cs@.len() - i,
    {
        i = i + 1;
    }
    i
}

/// The token that `run` repetitions of a date letter make.
pub open spec fn date_token(l: char, run: int) -> DtToken {
    if l == 'y' {
        if run <= 2 {
            DtToken::Year2
        } else {
            DtToken::Year4
        }
    } else if l == 'm' {
        if run == 1 {
            DtToken::Month1
        } else if run == 2 {
            DtToken::Month2
        } else if run == 3 {
            DtToken::MonthAbbr
        } else {
            DtToken::MonthFull
        }
    } else if l == 'd' {
        if run == 1 {
            DtToken::Day1
        } else if run == 2 {
            DtToken::Day2
        } else if run == 3 {
            DtToken::DayAbbr
        } else {
            DtToken::DayFull
        }
    } else if l == 'h' {
        if run == 1 {
            DtToken::Hour1
        } else {
            DtToken::Hour2
        }
    } else if run == 1 {
        DtToken::Second1
    } else {
        DtToken::Second2
    }
}

fn token_for(l: char, run: usize) -> (t: DtToken)
    ensures
        t == date_token(l, run as int),
{
    if l == 'y' {
        if run <= 2 {
            DtToken::Year2
        } else {
            DtToken::Year4
        }
    } else if l == 'm' {
        match run {
            1 => DtToken::Month1,
            2 => DtToken::Month2,
            3 => DtToken::MonthAbbr,
            _ => DtToken::MonthFull,
        }
    } else if l == 'd' {
        match run {
            1 => DtToken::Day1,
            2 => DtToken::Day2,
            3 => DtToken::DayAbbr,
            _ => DtToken::DayFull,
        }
    } else if l == 'h' {
        if run == 1 {
            DtToken::Hour1
        } else {
            DtToken::Hour2
        }
    } else if run == 1 {
        DtToken::Second1
    } else {
        DtToken::Second2
    }
}

/// Whether `word`, in either case, stands at `i`.
pub open spec fn word_at(cs: Seq<char>, i: int, word: Seq<char>) -> bool {
    0 <= i && i + word.len() <= cs.len() && (forall|k: int|
        0 <= k < word.len() ==> ascii_upper(#[trigger] cs[i + k]) == word[k])
}

fn is_word_at(cs: &Vec<char>, i: usize, word: &str) -> (b: bool)
    requires
        i <= cs@.len(),
    ensures
        b == word_at(cs@, i as int, word@),
{
    let w = chars_of(word);
    if w.len() > cs.len() - i {
        return false;
    }
    let mut k: usize = 0;
    while k < w.len()
        invariant
            k <= w@.len(),
            w@ == word@,
            i + w@.len() <= cs.len(),
            forall|j: int| 0 <= j < k ==> ascii_upper(#[trigger] cs@[i + j]) == w@[j],
        decreases w@.len() - k,
    {
        if to_ascii_upper(cs[i + k]) != w[k] {
            assert(ascii_upper(cs@[i + k as int]) != word@[k as int]);
            return false;
        }
        k = k + 1;
    }
    true
}

/// What stands at `i`, and where the next thing begins.
pub open spec fn lex(cs: Seq<char>, i: int) -> (Tok, int) {
    let n = cs.len() as int;
    let c = cs[i];
    let l = ascii_lower(c);
    let itself = (Tok::Literal { from: i as usize, to: (i + 1) as usize }, i + 1);
    if c == '\\' {
        if i + 1 < n {
            (Tok::Literal { from: (i + 1) as usize, to: (i + 2) as usize }, i + 2)
        } else {
            (Tok::Nothing, i + 1)
        }
    } else if c == '"' {
        let q = find_from(cs, '"', i + 1);
        (
            Tok::Literal { from: (i + 1) as usize, to: q as usize },
            if q < n {
                q + 1
            } else {
                n
            },
        )
    } else if c == '[' {
        let q = find_from(cs, ']', i);
        if q < n {
            (Tok::Bracket { from: (i + 1) as usize, to: q as usize }, q + 1)
        } else {
            (Tok::Nothing, i + 1)
        }
    } else if placeholder(c) {
        (Tok::Digit(c), i + 1)
    } else if c == '.' {
        (Tok::Point { at: i as usize, more: i + 1 < n }, i + 1)
    } else if c == ',' {
        (Tok::Comma { at: i as usize, more: placeholder_from(cs, i + 1) }, i + 1)
    } else if c == '%' {
        (Tok::Percent { at: i as usize }, i + 1)
    } else if c == '/' {
        (Tok::Slash { at: i as usize, more: denominator_from(cs, i + 1) }, i + 1)
    } else if l == 'e' {
        if i + 1 < n && (cs[i + 1] == '+' || cs[i + 1] == '-') {
            let j = placeholder_run(cs, i + 2);
            (Tok::Exponent { digits: (j - (i + 2)) as usize }, j)
        } else {
            itself
        }
    } else if c == '@' {
        (Tok::TextSlot, i + 1)
    } else if c == '*' {
        if i + 1 < n {
            (Tok::Fill(cs[i + 1]), i + 2)
        } else {
            (Tok::Nothing, i + 1)
        }
    } else if c == '_' {
        (
            Tok::Skip,
            if i + 1 < n {
                i + 2
            } else {
                i + 1
            },
        )
    } else if l == 'a' {
        if word_at(cs, i, "AM/PM"@) {
            (Tok::Date(DtToken::AmPm), i + 5)
        } else if word_at(cs, i, "A/P"@) {
            (Tok::Date(DtToken::AmPm), i + 3)
        } else {
            itself
        }
    } else if l == 'y' || l == 'm' || l == 'd' || l == 'h' || l == 's' {
        let j = letter_run(cs, l, i);
        (Tok::Date(date_token(l, j - i)), j)
    } else {
        itself
    }
}

fn next_token(cs: &Vec<char>, i: usize) -> (r: (Tok, usize))
    requires
        i < cs@.len(),
    ensures
        r.0 == lex(cs@, i as int).0,
        r.1 == lex(cs@, i as int).1,
        i < r.1 <= cs@.len(),
        r.0 matches Tok::Literal { from, to } ==> from <= to <= cs@.len(),
        r.0 matches Tok::Bracket { from, to } ==> from <= to <= cs@.len(),
        r.0 matches Tok::Point { at, more } ==> at == i,
        r.0 matches Tok::Comma { at, more } ==> at == i,
        r.0 matches Tok::Percent { at } ==> at == i,
        r.0 matches Tok::Slash { at, more } ==> at == i,
{
    let n: usize = cs.len();
    let c = cs[i];
    let l = to_ascii_lower(c);
    if c == '\\' {
        return if i + 1 < n {
            (Tok::Literal { from: i + 1, to: i + 2 }, i + 2)
        } else {
            (Tok::Nothing, i + 1)
        };
    }
    if c == '"' {
        let q: usize = find(cs, '"', i + 1);
        return (
            Tok::Literal { from: i + 1, to: q },
            if q < n {
                q + 1
            } else {
                n
            },
        );
    }
    if c == '[' {
        let q: usize = find(cs, ']', i);
        return if q < n {
            (Tok::Bracket { from: i + 1, to: q }, q + 1)
        } else {
            (Tok::Nothing, i + 1)
        };
    }
    if is_placeholder(c) {
        return (Tok::Digit(c), i + 1);
    }
    if c == '.' {
        return (Tok::Point { at: i, more: i + 1 < n }, i + 1);
    }
    if c == ',' {
        return (Tok::Comma { at: i, more: any_placeholder(cs, i + 1) }, i + 1);
    }
    if c == '%' {
        return (Tok::Percent { at: i }, i + 1);
    }
    if c == '/' {
        return (Tok::Slash { at: i, more: is_denominator(cs, i + 1) }, i + 1);
    }
    if l == 'e' {
        if i + 1 < n && (cs[i + 1] == '+' || cs[i + 1] == '-') {
            let j: usize = skip_placeholders(cs, i + 2);
            return (Tok::Exponent { digits: j - (i + 2) }, j);
        }
        return (Tok::Literal { from: i, to: i + 1 }, i + 1);
    }
    if c == '@' {
        return (Tok::TextSlot, i + 1);
    }
    if c == '*' {
        return if i + 1 < n {
            (Tok::Fill(cs[i + 1]), i + 2)
        } else {
            (Tok::Nothing, i + 1)
        };
    }
    if c == '_' {
        return (
            Tok::Skip,
            if i + 1 < n {
                i + 2
            } else {
                i + 1
            },
        );
    }
    if l == 'a' {
        proof {
            reveal_strlit("AM/PM");
            reveal_strlit("A/P");
        }
        if is_word_at(cs, i, "AM/PM") {
            return (Tok::Date(DtToken::AmPm), i + 5);
        }
        if is_word_at(cs, i, "A/P") {
            return (Tok::Date(DtToken::AmPm), i + 3);
        }
        return (Tok::Literal { from: i, to: i + 1 }, i + 1);
    }
    if l == 'y' || l == 'm' || l == 'd' || l == 'h' || l == 's' {
        let j: usize = skip_letter(cs, l, i);
        return (Tok::Date(token_for(l, j - i)), j);
    }
    (Tok::Literal { from: i, to: i + 1 }, i + 1)
}

// ------------------------------------------------------ reading a section --

/// A section half read, as contracts speak of it.
#[verifier::ext_equal]
pub struct DraftView {
    pub color: Option<FmtColor>,
    pub condition: Option<(CmpOp, Seq<char>)>,
    pub parts: Seq<PartView>,
    /// Literal text not yet made a part.
    pub literal: Seq<char>,
    pub spec: NumSpec,
    pub saw_number: bool,
    pub in_decimals: bool,
    /// Something was read that has no counterpart here.
    pub unmodelled: bool,
}

impl DraftView {
    pub open spec fn start() -> DraftView {
        DraftView {
            color: None,
            condition: None,
            parts: Seq::empty(),
            literal: Seq::empty(),
            spec: NumSpec::blank(),
            saw_number: false,
            in_decimals: false,
            unmodelled: false,
        }
    }

    /// The waiting literal made a part.
    pub open spec fn flushed(self) -> DraftView {
        if self.literal.len() > 0 {
            DraftView {
                parts: self.parts.push(PartView::Literal(self.literal)),
                literal: Seq::empty(),
                ..self
            }
        } else {
            self
        }
    }

    /// `part` in its place after the literal text read so far.
    pub open spec fn with_part(self, part: PartView) -> DraftView {
        let d = self.flushed();
        DraftView { parts: d.parts.push(part), ..d }
    }

    pub open spec fn with_literal(self, s: Seq<char>) -> DraftView {
        DraftView { literal: self.literal + s, ..self }
    }

    /// What a bracket adds: a colour, a condition, an elapsed-time token, or
    /// the symbol of a currency block, which is what its `$` and the first `-`
    /// enclose.
    pub open spec fn with_bracket(self, inner: Seq<char>) -> DraftView {
        let t = trimmed(inner);
        let low = ascii_lowered(t);
        if FmtColor::named(t) is Some {
            DraftView { color: FmtColor::named(t), ..self }
        } else if condition_of(t) is Some {
            DraftView { condition: condition_of(t), ..self }
        } else if low.len() > 0 && all_are(low, 'h') {
            self.with_part(PartView::DateTime(DtToken::ElapsedHour))
        } else if low.len() > 0 && all_are(low, 'm') {
            self.with_part(PartView::DateTime(DtToken::ElapsedMinute))
        } else if low.len() > 0 && all_are(low, 's') {
            self.with_part(PartView::DateTime(DtToken::ElapsedSecond))
        } else if low.len() > 0 && low[0] == '$' {
            self.with_literal(trimmed(low.subrange(1, find_from(low, '-', 1))))
        } else {
            DraftView { unmodelled: true, ..self }
        }
    }

    /// The draft after one more token.
    pub open spec fn after(self, cs: Seq<char>, tok: Tok) -> DraftView {
        match tok {
            Tok::Nothing => self,
            Tok::Literal { from, to } => self.with_literal(cs.subrange(from as int, to as int)),
            Tok::Bracket { from, to } => self.with_bracket(cs.subrange(from as int, to as int)),
            Tok::Digit(c) => {
                // The numeric body stands where its first placeholder does.
                let d = if self.saw_number {
                    self
                } else {
                    self.with_part(PartView::Number(NumSpec::blank()))
                };
                DraftView {
                    saw_number: true,
                    spec: if self.in_decimals {
                        NumSpec {
                            dec_max: (self.spec.dec_max + 1) as usize,
                            dec_zeros: if c == '0' {
                                (self.spec.dec_zeros + 1) as usize
                            } else {
                                self.spec.dec_zeros
                            },
                            ..self.spec
                        }
                    } else if c == '0' {
                        NumSpec { int_zeros: (self.spec.int_zeros + 1) as usize, ..self.spec }
                    } else {
                        self.spec
                    },
                    ..d
                }
            },
            Tok::Point { at, more } => if self.saw_number || more {
                DraftView { in_decimals: true, ..self }
            } else {
                self.with_literal(seq!['.'])
            },
            // Among the placeholders a comma groups; after them it scales.
            Tok::Comma { at, more } => if more {
                DraftView { spec: NumSpec { grouped: true, ..self.spec }, ..self }
            } else if self.saw_number {
                DraftView {
                    spec: NumSpec {
                        scale_commas: (self.spec.scale_commas + 1) as usize,
                        ..self.spec
                    },
                    ..self
                }
            } else {
                self.with_literal(seq![','])
            },
            Tok::Percent { at } => DraftView {
                spec: NumSpec { percents: (self.spec.percents + 1) as usize, ..self.spec },
                ..self.with_literal(seq!['%'])
            },
            // Behind digits and before a denominator it makes a fraction of the code;
            // elsewhere it separates the parts of a date.
            Tok::Slash { at, more } => DraftView {
                unmodelled: self.unmodelled || (self.saw_number && more),
                ..self.with_literal(seq!['/'])
            },
            Tok::Exponent { digits } => DraftView {
                spec: NumSpec { exponent: Some(digits), ..self.spec },
                saw_number: true,
                ..self
            },
            Tok::TextSlot => self.with_part(PartView::TextSlot),
            Tok::Fill(c) => self.with_part(PartView::Fill(c)),
            Tok::Skip => self.with_part(PartView::Skip),
            Tok::Date(t) => self.with_part(PartView::DateTime(t)),
        }
    }

    /// The draft once everything from `i` on is read.
    pub open spec fn read(self, cs: Seq<char>, i: int) -> DraftView
        decreases cs.len() - i,
    {
        if i < 0 || !(i < lex(cs, i).1 <= cs.len()) {
            self
        } else {
            self.after(cs, lex(cs, i).0).read(cs, lex(cs, i).1)
        }
    }
}

pub open spec fn all_are(s: Seq<char>, c: char) -> bool {
    forall|i: int| 0 <= i < s.len() ==> s[i] == c
}

fn is_all(cs: &Vec<char>, c: char) -> (b: bool)
    ensures
        b == (cs@.len() > 0 && all_are(cs@, c)),
{
    let mut i: usize = 0;
    while i < cs.len()
        invariant
            i <= cs@.len(),
            forall|k: int| 0 <= k < i ==> cs@[k] == c,
        decreases cs@.len() - i,
    {
        if cs[i] != c {
            return false;
        }
        i = i + 1;
    }
    cs.len() > 0
}

/// A section half read.
struct Draft {
    color: Option<FmtColor>,
    condition: Option<Condition>,
    parts: Vec<Part>,
    literal: Vec<char>,
    spec: NumSpec,
    saw_number: bool,
    in_decimals: bool,
    unmodelled: bool,
}

impl View for Draft {
    type V = DraftView;

    closed spec fn view(&self) -> DraftView {
        DraftView {
            color: self.color,
            condition: match self.condition {
                Some(c) => Some(c@),
                None => None,
            },
            parts: part_views(self.parts@),
            literal: self.literal@,
            spec: self.spec,
            saw_number: self.saw_number,
            in_decimals: self.in_decimals,
            unmodelled: self.unmodelled,
        }
    }
}

impl Draft {
    /// No counter is past `n`.
    spec fn counts_to(&self, n: int) -> bool {
        &&& self.spec.int_zeros <= n
        &&& self.spec.dec_zeros <= n
        &&& self.spec.dec_max <= n
        &&& self.spec.scale_commas <= n
        &&& self.spec.percents <= n
    }

    fn flush(&mut self)
        ensures
            final(self)@ == old(self)@.flushed(),
            final(self).spec == old(self).spec,
    {
        if self.literal.len() > 0 {
            let ghost before = self.parts@;
            let text = string_of(&self.literal);
            self.parts.push(Part::Literal(text));
            self.literal = Vec::new();
            proof {
                assert(part_views(self.parts@) =~= part_views(before).push(
                    PartView::Literal(old(self).literal@),
                ));
                assert(self@ =~= old(self)@.flushed());
            }
        }
    }

    fn put(&mut self, part: Part)
        ensures
            final(self)@ == old(self)@.with_part(part@),
            final(self).spec == old(self).spec,
    {
        self.flush();
        let ghost before = self.parts@;
        self.parts.push(part);
        proof {
            assert(part_views(self.parts@) =~= part_views(before).push(part@));
            assert(self@ =~= old(self)@.with_part(part@));
        }
    }

    fn add_text(&mut self, cs: &Vec<char>, from: usize, to: usize)
        requires
            from <= to <= cs@.len(),
        ensures
            final(self)@ == old(self)@.with_literal(cs@.subrange(from as int, to as int)),
            final(self).spec == old(self).spec,
    {
        let ghost before = self.literal@;
        let mut i: usize = from;
        assert(cs@.subrange(from as int, from as int) =~= Seq::<char>::empty());
        assert(before + Seq::<char>::empty() =~= before);
        while i < to
            invariant
                from <= i <= to <= cs@.len(),
                self.literal@ == before + cs@.subrange(from as int, i as int),
                self.color == old(self).color,
                self.condition == old(self).condition,
                self.parts == old(self).parts,
                self.spec == old(self).spec,
                self.saw_number == old(self).saw_number,
                self.in_decimals == old(self).in_decimals,
                self.unmodelled == old(self).unmodelled,
            decreases to - i,
        {
            self.literal.push(cs[i]);
            i = i + 1;
            assert(self.literal@ =~= before + cs@.subrange(from as int, i as int));
        }
    }

    fn add_char(&mut self, c: char)
        ensures
            final(self)@ == old(self)@.with_literal(seq![c]),
            final(self).spec == old(self).spec,
    {
        self.literal.push(c);
        assert(self.literal@ =~= old(self).literal@ + seq![c]);
    }

    fn add_bracket(&mut self, cs: &Vec<char>, from: usize, to: usize)
        requires
            from <= to <= cs@.len(),
        ensures
            final(self)@ == old(self)@.with_bracket(cs@.subrange(from as int, to as int)),
            final(self).spec == old(self).spec,
    {
        let t = trim_range(cs, from, to);
        let color = FmtColor::parse(&t);
        if color.is_some() {
            self.color = color;
            return;
        }
        let condition = parse_condition(&t);
        if condition.is_some() {
            self.condition = condition;
            return;
        }
        let low = lower_all(&t);
        if is_all(&low, 'h') {
            self.put(Part::DateTime(DtToken::ElapsedHour));
        } else if is_all(&low, 'm') {
            self.put(Part::DateTime(DtToken::ElapsedMinute));
        } else if is_all(&low, 's') {
            self.put(Part::DateTime(DtToken::ElapsedSecond));
        } else if low.len() > 0 && low[0] == '$' {
            let dash: usize = find(&low, '-', 1);
            let symbol = trim_range(&low, 1, dash);
            let n: usize = symbol.len();
            self.add_text(&symbol, 0, n);
            assert(symbol@.subrange(0, n as int) =~= symbol@);
        } else {
            self.unmodelled = true;
        }
    }

    fn step(&mut self, cs: &Vec<char>, tok: Tok)
        requires
            tok matches Tok::Literal { from, to } ==> from <= to <= cs@.len(),
            tok matches Tok::Bracket { from, to } ==> from <= to <= cs@.len(),
            old(self).counts_to(usize::MAX - 1),
        ensures
            final(self)@ == old(self)@.after(cs@, tok),
            forall|n: int| old(self).counts_to(n) ==> #[trigger] final(self).counts_to(n + 1),
    {
        match tok {
            Tok::Nothing => {},
            Tok::Literal { from, to } => self.add_text(cs, from, to),
            Tok::Bracket { from, to } => self.add_bracket(cs, from, to),
            Tok::Digit(c) => {
                if !self.saw_number {
                    self.put(Part::Number(NumSpec::default()));
                }
                self.saw_number = true;
                if self.in_decimals {
                    self.spec.dec_max = self.spec.dec_max + 1;
                    if c == '0' {
                        self.spec.dec_zeros = self.spec.dec_zeros + 1;
                    }
                } else if c == '0' {
                    self.spec.int_zeros = self.spec.int_zeros + 1;
                }
            },
            Tok::Point { at, more } => {
                if self.saw_number || more {
                    self.in_decimals = true;
                } else {
                    self.add_char('.');
                }
            },
            Tok::Comma { at, more } => {
                if more {
                    self.spec.grouped = true;
                } else if self.saw_number {
                    self.spec.scale_commas = self.spec.scale_commas + 1;
                } else {
                    self.add_char(',');
                }
            },
            Tok::Percent { at } => {
                self.spec.percents = self.spec.percents + 1;
                self.add_char('%');
            },
            Tok::Slash { at, more } => {
                if self.saw_number && more {
                    self.unmodelled = true;
                }
                self.add_char('/');
            },
            Tok::Exponent { digits } => {
                self.spec.exponent = Some(digits);
                self.saw_number = true;
            },
            Tok::TextSlot => self.put(Part::TextSlot),
            Tok::Fill(c) => self.put(Part::Fill(c)),
            Tok::Skip => self.put(Part::Skip),
            Tok::Date(t) => self.put(Part::DateTime(t)),
        }
        assert(self@ =~= old(self)@.after(cs@, tok));
    }
}

// ------------------------------------------------------------- finishing --

/// The date tokens among the parts, in order.
pub open spec fn dates_of(parts: Seq<PartView>) -> Seq<DtToken>
    decreases parts.len(),
{
    if parts.len() == 0 {
        Seq::empty()
    } else {
        match parts.last() {
            PartView::DateTime(t) => dates_of(parts.drop_last()).push(t),
            _ => dates_of(parts.drop_last()),
        }
    }
}

pub open spec fn is_hour(t: DtToken) -> bool {
    t is Hour1 || t is Hour2 || t is ElapsedHour
}

pub open spec fn is_second(t: DtToken) -> bool {
    t is Second1 || t is Second2
}

/// Token `k` of `dt`, an `m` or `mm` being a minute when an hour comes right
/// before it or a second right after it.
pub open spec fn resolved(dt: Seq<DtToken>, k: int) -> DtToken {
    if (k > 0 && is_hour(dt[k - 1])) || (k + 1 < dt.len() && is_second(dt[k + 1])) {
        match dt[k] {
            DtToken::Month1 => DtToken::Minute1,
            DtToken::Month2 => DtToken::Minute2,
            t => t,
        }
    } else {
        dt[k]
    }
}

/// The parts with their final contents: a section of dates has its tokens
/// resolved, one of numbers has its numeric body filled in.
pub open spec fn settled(parts: Seq<PartView>, spec: NumSpec, saw_number: bool) -> Seq<PartView> {
    let dt = dates_of(parts);
    Seq::new(
        parts.len(),
        |i: int|
            match parts[i] {
                PartView::DateTime(t) => PartView::DateTime(
                    resolved(dt, dates_of(parts.subrange(0, i)).len() as int),
                ),
                PartView::Number(n) => if dt.len() == 0 && saw_number {
                    PartView::Number(spec)
                } else {
                    PartView::Number(n)
                },
                p => p,
            },
    )
}

/// One `;`-delimited section, as contracts speak of it.
#[verifier::ext_equal]
pub struct SectionView {
    pub color: Option<FmtColor>,
    pub condition: Option<(CmpOp, Seq<char>)>,
    pub parts: Seq<PartView>,
    pub passthrough: bool,
    pub twelve_hour: bool,
}

impl DraftView {
    pub open spec fn finished(self) -> SectionView {
        let d = self.flushed();
        let dt = dates_of(d.parts);
        SectionView {
            color: d.color,
            condition: d.condition,
            parts: settled(d.parts, d.spec, d.saw_number),
            passthrough: d.parts.len() == 0 || d.unmodelled,
            twelve_hour: dt.contains(DtToken::AmPm),
        }
    }
}

/// What a section's text means.
pub open spec fn section_of(src: Seq<char>) -> SectionView {
    DraftView::start().read(src, 0).finished()
}

/// One `;`-delimited section of a format code.
#[derive(Debug, PartialEq, Eq, Clone)]
pub struct Section {
    /// Colour named by a `[Red]`-style token, if any.
    pub color: Option<FmtColor>,
    /// A `[>1000]`-style condition gating this section.
    pub condition: Option<Condition>,
    /// The literal/placeholder run list.
    parts: Vec<Part>,
    /// The code used tokens that are not modelled; render numerically.
    passthrough: bool,
    /// An AM/PM token makes every hour token here a 12-hour clock.
    twelve_hour: bool,
}

impl View for Section {
    type V = SectionView;

    closed spec fn view(&self) -> SectionView {
        SectionView {
            color: self.color,
            condition: match self.condition {
                Some(c) => Some(c@),
                None => None,
            },
            parts: part_views(self.parts@),
            passthrough: self.passthrough,
            twelve_hour: self.twelve_hour,
        }
    }
}

/// The date tokens of the first `k` parts are the first of all date tokens.
proof fn lemma_dates_prefix(parts: Seq<PartView>, k: int)
    requires
        0 <= k <= parts.len(),
    ensures
        dates_of(parts.subrange(0, k)).len() <= dates_of(parts).len(),
        dates_of(parts.subrange(0, k)) == dates_of(parts).subrange(
            0,
            dates_of(parts.subrange(0, k)).len() as int,
        ),
    decreases parts.len(),
{
    if k == parts.len() {
        assert(parts.subrange(0, k) =~= parts);
        assert(dates_of(parts).subrange(0, dates_of(parts).len() as int) =~= dates_of(parts));
    } else {
        let init = parts.drop_last();
        lemma_dates_prefix(init, k);
        assert(init.subrange(0, k) =~= parts.subrange(0, k));
        let p = dates_of(parts.subrange(0, k));
        assert(dates_of(parts).subrange(0, p.len() as int) =~= dates_of(init).subrange(
            0,
            p.len() as int,
        ));
    }
}

fn collect_dates(parts: &Vec<Part>) -> (dt: Vec<DtToken>)
    ensures
        dt@ == dates_of(part_views(parts@)),
{
    let mut dt: Vec<DtToken> = Vec::new();
    let ghost all = part_views(parts@);
    let mut i: usize = 0;
    while i < parts.len()
        invariant
            i <= parts@.len(),
            all == part_views(parts@),
            dt@ == dates_of(all.subrange(0, i as int)),
        decreases parts@.len() - i,
    {
        proof {
            let t = all.subrange(0, i + 1);
            assert(t.drop_last() =~= all.subrange(0, i as int));
            assert(t.last() == parts@[i as int]@);
        }
        match &parts[i] {
            Part::DateTime(t) => {
                dt.push(*t);
            },
            _ => {},
        }
        i = i + 1;
    }
    assert(all.subrange(0, all.len() as int) =~= all);
    dt
}

fn resolve(dt: &Vec<DtToken>, k: usize) -> (t: DtToken)
    requires
        k < dt@.len(),
    ensures
        t == resolved(dt@, k as int),
{
    let after_hour = k > 0 && (match dt[k - 1] {
        DtToken::Hour1 | DtToken::Hour2 | DtToken::ElapsedHour => true,
        _ => false,
    });
    let before_second = dt.len() - k > 1 && (match dt[k + 1] {
        DtToken::Second1 | DtToken::Second2 => true,
        _ => false,
    });
    if after_hour || before_second {
        match dt[k] {
            DtToken::Month1 => DtToken::Minute1,
            DtToken::Month2 => DtToken::Minute2,
            t => t,
        }
    } else {
        dt[k]
    }
}

fn has_token(dt: &Vec<DtToken>, t: DtToken) -> (b: bool)
    ensures
        b == dt@.contains(t),
{
    let mut i: usize = 0;
    while i < dt.len()
        invariant
            i <= dt@.len(),
            forall|k: int| 0 <= k < i ==> dt@[k] != t,
        decreases dt@.len() - i,
    {
        if dt[i] == t {
            return true;
        }
        i = i + 1;
    }
    false
}

fn parse_section(cs: &Vec<char>) -> (sec: Section)
    ensures
        sec@ == section_of(cs@),
{
    let mut d = Draft {
        color: None,
        condition: None,
        parts: Vec::new(),
        literal: Vec::new(),
        spec: NumSpec::default(),
        saw_number: false,
        in_decimals: false,
        unmodelled: false,
    };
    assert(d@ =~= DraftView::start());
    let n: usize = cs.len();
    let mut i: usize = 0;
    while i < n
        invariant
            i <= n == cs@.len(),
            d.counts_to(i as int),
            d@.read(cs@, i as int) == DraftView::start().read(cs@, 0),
        decreases cs@.len() - i,
    {
        let (tok, next) = next_token(cs, i);
        let ghost seen = i as int;
        d.step(cs, tok);
        assert(d.counts_to(seen + 1));
        i = next;
    }
    proof {
        assert(d@.read(cs@, i as int) == d@);
    }
    d.flush();
    let ghost whole = d@;
    let dt = collect_dates(&d.parts);
    let Draft {
        color,
        condition,
        mut parts,
        literal: _,
        spec,
        saw_number,
        in_decimals: _,
        unmodelled,
    } = d;
    let ghost views = part_views(parts@);
    let ghost want = settled(views, spec, saw_number);
    let mut p: usize = 0;
    let mut k: usize = 0;
    let dates: usize = dt.len();
    while p < parts.len()
        invariant
            dates == dt@.len(),
            p <= parts@.len() == views.len(),
            dt@ == dates_of(views),
            want == settled(views, spec, saw_number),
            k == dates_of(views.subrange(0, p as int)).len(),
            forall|j: int| 0 <= j < p ==> (#[trigger] parts@[j])@ == want[j],
            forall|j: int| p <= j < parts@.len() ==> (#[trigger] parts@[j])@ == views[j],
        decreases parts@.len() - p,
    {
        proof {
            let t = views.subrange(0, p + 1);
            assert(t.drop_last() =~= views.subrange(0, p as int));
            assert(t.last() == views[p as int]);
            assert(parts@[p as int]@ == views[p as int]);
            lemma_dates_prefix(views, p + 1);
        }
        match &parts[p] {
            Part::DateTime(t) => {
                let token = resolve(&dt, k);
                parts.set(p, Part::DateTime(token));
                k = k + 1;
            },
            Part::Number(n) => {
                if dates == 0 && saw_number {
                    parts.set(p, Part::Number(spec));
                }
            },
            _ => {},
        }
        p = p + 1;
    }
    let passthrough = parts.len() == 0 || unmodelled;
    let twelve_hour = has_token(&dt, DtToken::AmPm);
    let sec = Section { color, condition, parts, passthrough, twelve_hour };
    proof {
        assert(part_views(parts@) =~= want);
        assert(sec@ =~= section_of(cs@));
    }
    sec
}

/// What a format code means.
pub open spec fn code_of(code: Seq<char>) -> Seq<SectionView> {
    Seq::new(sections_of(code).len(), |i: int| section_of(sections_of(code)[i]))
}

/// A parsed format code, ready to render values.
#[derive(Debug, PartialEq, Eq, Clone)]
pub struct NumFmt {
    /// Sections in source order.
    sections: Vec<Section>,
}

impl View for NumFmt {
    type V = Seq<SectionView>;

    closed spec fn view(&self) -> Seq<SectionView> {
        Seq::new(self.sections@.len(), |i: int| self.sections@[i]@)
    }
}

impl NumFmt {
    /// Parse a format code. Never fails: an unmodelled code becomes a
    /// passthrough section so the value still renders as a number.
    pub fn parse(code: &str) -> (r: NumFmt)
        ensures
            r@ == code_of(code@),
            r@.len() > 0,
    {
        let raw = split_sections(&chars_of(code));
        let mut sections: Vec<Section> = Vec::new();
        let mut i: usize = 0;
        while i < raw.len()
            invariant
                i <= raw@.len(),
                char_views(raw@) == sections_of(code@),
                sections@.len() == i,
                forall|k: int|
                    0 <= k < i ==> (#[trigger] sections@[k])@ == section_of(sections_of(code@)[k]),
            decreases raw@.len() - i,
        {
            assert(raw@[i as int]@ == char_views(raw@)[i as int]);
            sections.push(parse_section(&raw[i]));
            i = i + 1;
        }
        let r = NumFmt { sections };
        proof {
            assert(char_views(raw@).len() == sections_of(code@).len());
            assert(r@ =~= code_of(code@));
            sections_join_to_the_code(code@);
        }
        r
    }
}

// ------------------------------------------------------- choosing a section --

/// Whether section `i` is the one that a conditional code takes for `v`, going
/// by that section alone: it has no condition, or its condition holds.
pub open spec fn takes(s: SectionView, v: F64, limit: F64) -> bool {
    match s.condition {
        Some(c) => c.0.holds_spec(v, limit),
        None => true,
    }
}

pub open spec fn conditional(sections: Seq<SectionView>) -> bool {
    exists|i: int| 0 <= i < sections.len() && (#[trigger] sections[i]).condition is Some
}

/// The first section from `i` on that takes `v`, or the last one.
pub open spec fn first_taking(
    sections: Seq<SectionView>,
    v: F64,
    limits: Seq<F64>,
    i: int,
) -> int
    decreases sections.len() - i,
{
    if i >= sections.len() - 1 || i < 0 || takes(sections[i], v, limits[i]) {
        i
    } else {
        first_taking(sections, v, limits, i + 1)
    }
}

/// Which section `v` goes through.
///
/// With conditions present, the first section whose condition holds or that
/// has none, and failing all the last. Without, by sign: positive, negative,
/// zero; zero goes with positive unless there is a third section, and a
/// missing section falls back to the first.
pub open spec fn section_index(sections: Seq<SectionView>, v: F64, limits: Seq<F64>) -> int {
    let zero = F64(0);
    if conditional(sections) {
        first_taking(sections, v, limits, 0)
    } else if zero.lt_spec(v) || (v.eq_num_spec(zero) && sections.len() < 3) {
        0
    } else if v.lt_spec(zero) {
        if sections.len() > 1 {
            1
        } else {
            0
        }
    } else if sections.len() > 2 {
        2
    } else {
        0
    }
}

/// Whether an automatic minus belongs in front of `v`: only a section meant
/// for negatives, or one that spells a sign itself, does without.
pub open spec fn needs_sign(sections: Seq<SectionView>, v: F64, limits: Seq<F64>) -> bool {
    let zero = F64(0);
    if zero.lt_spec(v) || v.eq_num_spec(zero) {
        false
    } else if conditional(sections) {
        let s = sections[section_index(sections, v, limits)];
        formats_the_value(s.parts) && !spells_a_sign(s.parts)
    } else {
        sections.len() < 2
    }
}

pub open spec fn formats_the_value(parts: Seq<PartView>) -> bool {
    exists|i: int|
        0 <= i < parts.len() && ((#[trigger] parts[i]) is Number || parts[i] is DateTime)
}

pub open spec fn sign_char(c: char) -> bool {
    c == '-' || c == '(' || c == '\u{2212}'
}

pub open spec fn has_sign_char(s: Seq<char>) -> bool {
    exists|i: int| 0 <= i < s.len() && sign_char(#[trigger] s[i])
}

pub open spec fn spells_a_sign(parts: Seq<PartView>) -> bool {
    exists|i: int|
        0 <= i < parts.len() && ((#[trigger] parts[i]) matches PartView::Literal(l)
            && has_sign_char(l))
}

fn contains_sign(cs: &Vec<char>) -> (b: bool)
    ensures
        b == has_sign_char(cs@),
{
    let mut i: usize = 0;
    while i < cs.len()
        invariant
            i <= cs@.len(),
            forall|k: int| 0 <= k < i ==> !sign_char(#[trigger] cs@[k]),
        decreases cs@.len() - i,
    {
        let c = cs[i];
        if c == '-' || c == '(' || c == '\u{2212}' {
            assert(sign_char(cs@[i as int]));
            return true;
        }
        i = i + 1;
    }
    false
}

impl Section {
    /// Does this section actually format the value, or is it pure literal?
    fn renders_a_number(&self) -> (b: bool)
        ensures
            b == formats_the_value(self@.parts),
    {
        let ghost views = self@.parts;
        let mut i: usize = 0;
        while i < self.parts.len()
            invariant
                i <= self.parts@.len(),
                views == part_views(self.parts@),
                forall|k: int| 0 <= k < i ==> !((#[trigger] views[k]) is Number || views[k] is DateTime),
            decreases self.parts@.len() - i,
        {
            assert(views[i as int] == self.parts@[i as int]@);
            match &self.parts[i] {
                Part::Number(_) => {
                    return true;
                },
                Part::DateTime(_) => {
                    return true;
                },
                _ => {},
            }
            i = i + 1;
        }
        false
    }

    fn has_literal_sign(&self) -> (b: bool)
        ensures
            b == spells_a_sign(self@.parts),
    {
        let ghost views = self@.parts;
        let mut i: usize = 0;
        while i < self.parts.len()
            invariant
                i <= self.parts@.len(),
                views == part_views(self.parts@),
                forall|k: int|
                    0 <= k < i ==> !((#[trigger] views[k]) matches PartView::Literal(l)
                        && has_sign_char(l)),
            decreases self.parts@.len() - i,
        {
            assert(views[i as int] == self.parts@[i as int]@);
            match &self.parts[i] {
                Part::Literal(l) => {
                    if contains_sign(&chars_of(l.as_str())) {
                        return true;
                    }
                },
                _ => {},
            }
            i = i + 1;
        }
        false
    }
}

impl NumFmt {
    /// Does this code model nothing beyond a plain number?
    pub fn is_trivial(&self) -> (b: bool)
        ensures
            b == (self@.len() == 1 && self@[0].passthrough),
    {
        self.sections.len() == 1 && self.sections[0].passthrough
    }

    fn is_conditional(&self) -> (b: bool)
        ensures
            b == conditional(self@),
    {
        let mut i: usize = 0;
        while i < self.sections.len()
            invariant
                i <= self.sections@.len(),
                forall|k: int| 0 <= k < i ==> (#[trigger] self@[k]).condition is None,
            decreases self.sections@.len() - i,
        {
            assert(self@[i as int] == self.sections@[i as int]@);
            if self.sections[i].condition.is_some() {
                return true;
            }
            i = i + 1;
        }
        false
    }

    /// The limits written in the sections' conditions, in section order, empty
    /// for a section without one. Whoever asks for a section reads these as
    /// numbers first.
    pub fn limits(&self) -> (out: Vec<String>)
        ensures
            out@.len() == self@.len(),
            forall|i: int|
                0 <= i < out@.len() ==> (#[trigger] out@[i])@ == match self@[i].condition {
                    Some(c) => c.1,
                    None => Seq::empty(),
                },
    {
        let mut out: Vec<String> = Vec::new();
        let mut i: usize = 0;
        while i < self.sections.len()
            invariant
                i <= self.sections@.len(),
                out@.len() == i,
                forall|k: int|
                    0 <= k < i ==> (#[trigger] out@[k])@ == match self@[k].condition {
                        Some(c) => c.1,
                        None => Seq::empty(),
                    },
            decreases self.sections@.len() - i,
        {
            assert(self@[i as int] == self.sections@[i as int]@);
            match &self.sections[i].condition {
                Some(c) => out.push(c.limit.clone()),
                None => out.push(String::new()),
            }
            i = i + 1;
        }
        out
    }

    fn index_for(&self, v: F64, limits: &Vec<F64>) -> (i: usize)
        requires
            self@.len() > 0,
            limits@.len() == self@.len(),
        ensures
            i == section_index(self@, v, limits@),
            i < self@.len(),
    {
        let n: usize = self.sections.len();
        let zero = F64(0);
        if self.is_conditional() {
            let mut i: usize = 0;
            while i < n - 1
                invariant
                    i < n == self@.len(),
                    conditional(self@),
                    n == self.sections@.len(),
                    limits@.len() == n,
                    first_taking(self@, v, limits@, i as int) == first_taking(self@, v, limits@, 0),
                decreases n - i,
            {
                assert(self@[i as int] == self.sections@[i as int]@);
                let taken = match &self.sections[i].condition {
                    Some(c) => c.op.holds(v, limits[i]),
                    None => true,
                };
                if taken {
                    return i;
                }
                i = i + 1;
            }
            return i;
        }
        if zero.less_than(v) || (v.num_eq(zero) && n < 3) {
            0
        } else if v.less_than(zero) {
            if n > 1 {
                1
            } else {
                0
            }
        } else if n > 2 {
            2
        } else {
            0
        }
    }

    /// Choose the section for `v`, `limits` being the numbers that the
    /// sections' conditions are written with.
    pub fn section_for(&self, v: F64, limits: &Vec<F64>) -> (s: &Section)
        requires
            self@.len() > 0,
            limits@.len() == self@.len(),
        ensures
            s@ == self@[section_index(self@, v, limits@)],
    {
        let i: usize = self.index_for(v, limits);
        assert(self@[i as int] == self.sections@[i as int]@);
        &self.sections[i]
    }

    /// Colour for a value, if its section names one.
    pub fn color_for(&self, v: F64, limits: &Vec<F64>) -> (c: Option<FmtColor>)
        requires
            self@.len() > 0,
            limits@.len() == self@.len(),
        ensures
            c == self@[section_index(self@, v, limits@)].color,
    {
        self.section_for(v, limits).color
    }

    /// Whether the chosen section leaves the sign to be added.
    fn negative_needs_sign(&self, v: F64, limits: &Vec<F64>) -> (b: bool)
        requires
            self@.len() > 0,
            limits@.len() == self@.len(),
        ensures
            b == needs_sign(self@, v, limits@),
    {
        let zero = F64(0);
        if zero.less_than(v) || v.num_eq(zero) {
            return false;
        }
        if self.is_conditional() {
            let s = self.section_for(v, limits);
            return s.renders_a_number() && !s.has_literal_sign();
        }
        self.sections.len() < 2
    }
}

// --------------------------------------------------------------- layout --

/// Digits with a comma before every third one from the right.
pub open spec fn grouped_digits(s: Seq<char>) -> Seq<char>
    decreases s.len(),
{
    if s.len() <= 3 {
        s
    } else {
        grouped_digits(s.subrange(0, s.len() - 3)) + seq![','] + s.subrange(
            s.len() - 3,
            s.len() as int,
        )
    }
}

/// Grouping adds commas and nothing else: taking them out gives the digits.
pub proof fn grouping_keeps_the_digits(s: Seq<char>)
    requires
        forall|i: int| 0 <= i < s.len() ==> s[i] != ',',
    ensures
        grouped_digits(s).filter(|c: char| c != ',') == s,
    decreases s.len(),
{
    let keep = |c: char| c != ',';
    if s.len() <= 3 {
        lemma_filter_all(s, keep);
    } else {
        let head = s.subrange(0, s.len() - 3);
        let tail = s.subrange(s.len() - 3, s.len() as int);
        grouping_keeps_the_digits(head);
        lemma_filter_all(tail, keep);
        let g = grouped_digits(head);
        Seq::filter_distributes_over_add(g + seq![','], tail, keep);
        Seq::filter_distributes_over_add(g, seq![','], keep);
        assert(seq![','].filter(keep) =~= Seq::<char>::empty()) by {
            reveal(Seq::filter);
            assert(seq![','].drop_last() =~= Seq::<char>::empty());
            assert(Seq::<char>::empty().filter(keep) =~= Seq::<char>::empty());
        }
        assert(head + Seq::<char>::empty() + tail =~= s);
    }
}

proof fn lemma_filter_all(s: Seq<char>, keep: spec_fn(char) -> bool)
    requires
        forall|i: int| 0 <= i < s.len() ==> keep(s[i]),
    ensures
        s.filter(keep) == s,
    decreases s.len(),
{
    reveal(Seq::filter);
    if s.len() > 0 {
        lemma_filter_all(s.drop_last(), keep);
        assert(s.drop_last().push(s.last()) =~= s);
    } else {
        assert(s.filter(keep) =~= s);
    }
}

/// Appends `cs[..to]`, grouped.
fn push_grouped(out: &mut Vec<char>, cs: &Vec<char>, to: usize)
    requires
        to <= cs@.len(),
    ensures
        final(out)@ == old(out)@ + grouped_digits(cs@.subrange(0, to as int)),
    decreases to,
{
    let ghost s = cs@.subrange(0, to as int);
    if to <= 3 {
        push_range(out, cs, 0, to);
    } else {
        push_grouped(out, cs, to - 3);
        out.push(',');
        push_range(out, cs, to - 3, to);
        proof {
            assert(s.subrange(0, to - 3) =~= cs@.subrange(0, to - 3));
            assert(s.subrange(to - 3, to as int) =~= cs@.subrange(to - 3, to as int));
            assert(out@ =~= old(out)@ + grouped_digits(s));
        }
    }
}

/// Insert thousands separators into a run of digits.
pub fn group3(digits: &str) -> (s: String)
    ensures
        s@ == grouped_digits(digits@),
{
    let cs = chars_of(digits);
    let mut out: Vec<char> = Vec::new();
    let n: usize = cs.len();
    push_grouped(&mut out, &cs, n);
    assert(cs@.subrange(0, n as int) =~= digits@);
    assert(out@ =~= grouped_digits(digits@));
    string_of(&out)
}

/// `n` copies of `c`.
pub open spec fn repeated(c: char, n: nat) -> Seq<char> {
    Seq::new(n, |i: int| c)
}

/// `s` with `c` in front until it has `width` characters.
pub open spec fn padded(s: Seq<char>, c: char, width: nat) -> Seq<char> {
    if s.len() < width {
        repeated(c, (width - s.len()) as nat) + s
    } else {
        s
    }
}

/// `s` without the minus signs at its start.
pub open spec fn without_minus(s: Seq<char>) -> Seq<char>
    decreases s.len(),
{
    if s.len() > 0 && s[0] == '-' {
        without_minus(s.subrange(1, s.len() as int))
    } else {
        s
    }
}

/// `s` without trailing zeros, but no shorter than `keep`.
pub open spec fn without_zeros(s: Seq<char>, keep: nat) -> Seq<char>
    decreases s.len(),
{
    if s.len() > keep && s.last() == '0' {
        without_zeros(s.drop_last(), keep)
    } else {
        s
    }
}

impl NumSpec {
    /// The integer digits as this spec shows them: padded to the minimum, a
    /// lone zero dropped where no digit is asked for, grouped.
    pub open spec fn int_layout(self, digits: Seq<char>) -> Seq<char> {
        let p = padded(digits, '0', self.int_zeros as nat);
        let q = if p == seq!['0'] && self.int_zeros == 0 {
            Seq::empty()
        } else {
            p
        };
        if self.grouped {
            grouped_digits(q)
        } else {
            q
        }
    }

    /// A number written in full, with `dec_max` decimals, as this spec shows it.
    pub open spec fn layout_spec(self, s: Seq<char>) -> Seq<char> {
        let dot = find_from(s, '.', 0);
        let int_part = self.int_layout(without_minus(s.subrange(0, dot)));
        let dec_part = if dot < s.len() {
            without_zeros(s.subrange(dot + 1, s.len() as int), self.dec_zeros as nat)
        } else {
            Seq::empty()
        };
        if dec_part.len() > 0 {
            int_part + seq!['.'] + dec_part
        } else {
            int_part
        }
    }

    /// Lay out a number that the caller has scaled, rounded to `dec_max`
    /// decimals and written in full.
    pub fn layout(&self, written: &str) -> (out: String)
        ensures
            out@ == self.layout_spec(written@),
    {
        let cs = chars_of(written);
        let n: usize = cs.len();
        let dot: usize = find(&cs, '.', 0);
        let ghost head = cs@.subrange(0, dot as int);
        let mut a: usize = 0;
        assert(cs@.subrange(0, dot as int) =~= head);
        while a < dot && cs[a] == '-'
            invariant
                a <= dot <= cs@.len(),
                without_minus(cs@.subrange(a as int, dot as int)) == without_minus(head),
            decreases dot - a,
        {
            proof {
                let t = cs@.subrange(a as int, dot as int);
                assert(t.subrange(1, t.len() as int) =~= cs@.subrange(a + 1, dot as int));
            }
            a = a + 1;
        }
        let ghost digits = cs@.subrange(a as int, dot as int);
        assert(digits == without_minus(head));
        let mut int_digits: Vec<char> = Vec::new();
        let have: usize = dot - a;
        if have < self.int_zeros {
            let mut k: usize = have;
            assert(int_digits@ =~= repeated('0', 0));
            while k < self.int_zeros
                invariant
                    have <= k <= self.int_zeros,
                    int_digits@ == repeated('0', (k - have) as nat),
                decreases self.int_zeros - k,
            {
                int_digits.push('0');
                k = k + 1;
                assert(int_digits@ =~= repeated('0', (k - have) as nat));
            }
        }
        push_range(&mut int_digits, &cs, a, dot);
        assert(int_digits@ =~= padded(digits, '0', self.int_zeros as nat));
        if int_digits.len() == 1 && int_digits[0] == '0' && self.int_zeros == 0 {
            assert(int_digits@ =~= seq!['0']);
            int_digits = Vec::new();
        } else {
            assert(self.int_zeros == 0 ==> int_digits@ != seq!['0']);
        }
        let mut out: Vec<char> = Vec::new();
        let w: usize = int_digits.len();
        if self.grouped {
            push_grouped(&mut out, &int_digits, w);
        } else {
            push_range(&mut out, &int_digits, 0, w);
        }
        assert(int_digits@.subrange(0, w as int) =~= int_digits@);
        assert(out@ =~= self.int_layout(digits));
        if dot < n {
            let mut b: usize = n;
            let ghost tail = cs@.subrange(dot + 1, n as int);
            while b - (dot + 1) > self.dec_zeros && cs[b - 1] == '0'
                invariant
                    dot < dot + 1 <= b <= n == cs@.len(),
                    without_zeros(cs@.subrange(dot + 1, b as int), self.dec_zeros as nat)
                        == without_zeros(tail, self.dec_zeros as nat),
                decreases b,
            {
                proof {
                    let t = cs@.subrange(dot + 1, b as int);
                    assert(t.drop_last() =~= cs@.subrange(dot + 1, b - 1));
                }
                b = b - 1;
            }
            if b > dot + 1 {
                out.push('.');
                push_range(&mut out, &cs, dot + 1, b);
            }
        }
        assert(out@ =~= self.layout_spec(written@));
        string_of(&out)
    }

    /// A mantissa and an exponent as this spec shows them.
    pub open spec fn scientific_spec(mantissa: Seq<char>, exp: int, exp_digits: nat) -> Seq<char> {
        mantissa + seq![
            'E',
            if exp < 0 {
                '-'
            } else {
                '+'
            },
        ] + padded(
            decimal(
                if exp < 0 {
                    -exp
                } else {
                    exp
                } as nat,
            ),
            '0',
            exp_digits,
        )
    }

    /// Lay out a number whose mantissa the caller has written with `dec_max`
    /// decimals; the exponent gets at least `exp_digits` digits.
    pub fn layout_scientific(mantissa: &str, exp: i32, exp_digits: usize) -> (out: String)
        requires
            exp > i32::MIN,
        ensures
            out@ == Self::scientific_spec(mantissa@, exp as int, exp_digits as nat),
    {
        let mut out = String::new();
        out.push_str(mantissa);
        out.push('E');
        let size: u64;
        if exp < 0 {
            out.push('-');
            size = (-(exp as i64)) as u64;
        } else {
            out.push('+');
            size = exp as u64;
        }
        push_padded(&mut out, size, exp_digits);
        assert(out@ =~= Self::scientific_spec(mantissa@, exp as int, exp_digits as nat));
        out
    }
}

/// Appends `n` in decimal, with zeros in front up to `width` characters.
fn push_padded(out: &mut String, n: u64, width: usize)
    ensures
        final(out)@ == old(out)@ + padded(decimal(n as nat), '0', width as nat),
{
    let mut digits = String::new();
    push_decimal(&mut digits, n);
    assert(digits@ =~= decimal(n as nat));
    let cs = chars_of(digits.as_str());
    let have: usize = cs.len();
    let mut k: usize = have;
    assert(out@ =~= old(out)@ + repeated('0', 0));
    while k < width
        invariant
            have <= k,
            have < width ==> k <= width,
            width <= have ==> k == have,
            out@ == old(out)@ + repeated('0', (k - have) as nat),
        decreases width - k,
    {
        out.push('0');
        k = k + 1;
        assert(out@ =~= old(out)@ + repeated('0', (k - have) as nat));
    }
    out.push_str(digits.as_str());
    assert(out@ =~= old(out)@ + padded(decimal(n as nat), '0', width as nat));
}

// ---------------------------------------------------------------- dates --

/// The calendar and clock parts of a date, and the time elapsed since the
/// epoch in whole units.
#[derive(Clone, Copy, Debug, PartialEq, Eq, Structural)]
pub struct DateParts {
    pub year: i64,
    /// 1 to 12.
    pub month: u32,
    pub day: u32,
    /// On a 24-hour clock.
    pub hour: u32,
    pub minute: u32,
    pub second: u32,
    /// 0 is Sunday.
    pub weekday: u32,
    pub elapsed_hours: i64,
    pub elapsed_minutes: i64,
    pub elapsed_seconds: i64,
}

/// A whole number in decimal, a minus in front of a negative one.
pub open spec fn signed_decimal(n: int) -> Seq<char> {
    if n < 0 {
        seq!['-'] + decimal((-n) as nat)
    } else {
        decimal(n as nat)
    }
}

/// The same, filled with zeros between sign and digits up to `width`.
pub open spec fn signed_padded(n: int, width: nat) -> Seq<char> {
    if n < 0 {
        seq!['-'] + padded(
            decimal((-n) as nat),
            '0',
            if width > 0 {
                (width - 1) as nat
            } else {
                0
            },
        )
    } else {
        padded(decimal(n as nat), '0', width)
    }
}

/// `n % 100`, with the sign of `n`.
pub open spec fn last_two(n: int) -> int {
    if n < 0 {
        -((-n) % 100)
    } else {
        n % 100
    }
}

pub open spec fn month_name(m: u32) -> Seq<char> {
    if m <= 1 {
        "January"@
    } else if m == 2 {
        "February"@
    } else if m == 3 {
        "March"@
    } else if m == 4 {
        "April"@
    } else if m == 5 {
        "May"@
    } else if m == 6 {
        "June"@
    } else if m == 7 {
        "July"@
    } else if m == 8 {
        "August"@
    } else if m == 9 {
        "September"@
    } else if m == 10 {
        "October"@
    } else if m == 11 {
        "November"@
    } else {
        "December"@
    }
}

fn month_text(m: u32) -> (s: &'static str)
    ensures
        s@ == month_name(m),
        s@.len() >= 3,
{
    proof {
        reveal_strlit("January");
        reveal_strlit("February");
        reveal_strlit("March");
        reveal_strlit("April");
        reveal_strlit("May");
        reveal_strlit("June");
        reveal_strlit("July");
        reveal_strlit("August");
        reveal_strlit("September");
        reveal_strlit("October");
        reveal_strlit("November");
        reveal_strlit("December");
    }
    match m {
        0 | 1 => "January",
        2 => "February",
        3 => "March",
        4 => "April",
        5 => "May",
        6 => "June",
        7 => "July",
        8 => "August",
        9 => "September",
        10 => "October",
        11 => "November",
        _ => "December",
    }
}

pub open spec fn day_name(d: u32) -> Seq<char> {
    if d == 0 {
        "Sunday"@
    } else if d == 1 {
        "Monday"@
    } else if d == 2 {
        "Tuesday"@
    } else if d == 3 {
        "Wednesday"@
    } else if d == 4 {
        "Thursday"@
    } else if d == 5 {
        "Friday"@
    } else {
        "Saturday"@
    }
}

fn day_text(d: u32) -> (s: &'static str)
    ensures
        s@ == day_name(d),
        s@.len() >= 3,
{
    proof {
        reveal_strlit("Sunday");
        reveal_strlit("Monday");
        reveal_strlit("Tuesday");
        reveal_strlit("Wednesday");
        reveal_strlit("Thursday");
        reveal_strlit("Friday");
        reveal_strlit("Saturday");
    }
    match d {
        0 => "Sunday",
        1 => "Monday",
        2 => "Tuesday",
        3 => "Wednesday",
        4 => "Thursday",
        5 => "Friday",
        _ => "Saturday",
    }
}

/// The hour as a clock of 12 or of 24 shows it.
pub open spec fn clock_hour(hour: u32, twelve_hour: bool) -> u32 {
    if !twelve_hour {
        hour
    } else if hour % 12 == 0 {
        12
    } else {
        hour % 12
    }
}

/// What a token shows of a date. Elapsed forms are not clamped to a clock.
pub open spec fn token_text(t: DtToken, p: DateParts, twelve_hour: bool) -> Seq<char> {
    let hour = clock_hour(p.hour, twelve_hour) as nat;
    match t {
        DtToken::Year2 => signed_padded(last_two(p.year as int), 2),
        DtToken::Year4 => signed_padded(p.year as int, 4),
        DtToken::Month1 => decimal(p.month as nat),
        DtToken::Month2 => padded(decimal(p.month as nat), '0', 2),
        DtToken::MonthAbbr => month_name(p.month).subrange(0, 3),
        DtToken::MonthFull => month_name(p.month),
        DtToken::Day1 => decimal(p.day as nat),
        DtToken::Day2 => padded(decimal(p.day as nat), '0', 2),
        DtToken::DayAbbr => day_name(p.weekday).subrange(0, 3),
        DtToken::DayFull => day_name(p.weekday),
        DtToken::Hour1 => decimal(hour),
        DtToken::Hour2 => padded(decimal(hour), '0', 2),
        DtToken::Minute1 => decimal(p.minute as nat),
        DtToken::Minute2 => padded(decimal(p.minute as nat), '0', 2),
        DtToken::Second1 => decimal(p.second as nat),
        DtToken::Second2 => padded(decimal(p.second as nat), '0', 2),
        DtToken::ElapsedHour => signed_decimal(p.elapsed_hours as int),
        DtToken::ElapsedMinute => signed_decimal(p.elapsed_minutes as int),
        DtToken::ElapsedSecond => signed_decimal(p.elapsed_seconds as int),
        DtToken::AmPm => if p.hour < 12 {
            "AM"@
        } else {
            "PM"@
        },
    }
}

fn magnitude(n: i64) -> (m: u64)
    ensures
        m == if n < 0 {
            -n as int
        } else {
            n as int
        },
{
    if n < 0 {
        (-(n as i128)) as u64
    } else {
        n as u64
    }
}

fn push_signed(out: &mut String, n: i64, width: usize)
    ensures
        final(out)@ == old(out)@ + signed_padded(n as int, width as nat),
{
    if n < 0 {
        out.push('-');
        push_padded(
            out,
            magnitude(n),
            if width > 0 {
                width - 1
            } else {
                0
            },
        );
    } else {
        push_padded(out, n as u64, width);
    }
    assert(out@ =~= old(out)@ + signed_padded(n as int, width as nat));
}

fn push_first3(out: &mut String, s: &str)
    requires
        s@.len() >= 3,
    ensures
        final(out)@ == old(out)@ + s@.subrange(0, 3),
{
    let cs = chars_of(s);
    let head = string_from(&cs, 0, 3);
    out.push_str(head.as_str());
}

fn push_token(out: &mut String, t: DtToken, p: &DateParts, twelve_hour: bool)
    ensures
        final(out)@ == old(out)@ + token_text(t, *p, twelve_hour),
{
    let hour: u32 = if !twelve_hour {
        p.hour
    } else if p.hour % 12 == 0 {
        12
    } else {
        p.hour % 12
    };
    match t {
        DtToken::Year2 => {
            let size: u64 = magnitude(p.year) % 100;
            let two: i64 = if p.year < 0 {
                -(size as i64)
            } else {
                size as i64
            };
            push_signed(out, two, 2);
        },
        DtToken::Year4 => push_signed(out, p.year, 4),
        DtToken::Month1 => push_decimal(out, p.month as u64),
        DtToken::Month2 => push_padded(out, p.month as u64, 2),
        DtToken::MonthAbbr => push_first3(out, month_text(p.month)),
        DtToken::MonthFull => out.push_str(month_text(p.month)),
        DtToken::Day1 => push_decimal(out, p.day as u64),
        DtToken::Day2 => push_padded(out, p.day as u64, 2),
        DtToken::DayAbbr => push_first3(out, day_text(p.weekday)),
        DtToken::DayFull => out.push_str(day_text(p.weekday)),
        DtToken::Hour1 => push_decimal(out, hour as u64),
        DtToken::Hour2 => push_padded(out, hour as u64, 2),
        DtToken::Minute1 => push_decimal(out, p.minute as u64),
        DtToken::Minute2 => push_padded(out, p.minute as u64, 2),
        DtToken::Second1 => push_decimal(out, p.second as u64),
        DtToken::Second2 => push_padded(out, p.second as u64, 2),
        DtToken::ElapsedHour => push_whole(out, p.elapsed_hours),
        DtToken::ElapsedMinute => push_whole(out, p.elapsed_minutes),
        DtToken::ElapsedSecond => push_whole(out, p.elapsed_seconds),
        DtToken::AmPm => out.push_str(
            if p.hour < 12 {
                "AM"
            } else {
                "PM"
            },
        ),
    }
}

fn push_whole(out: &mut String, n: i64)
    ensures
        final(out)@ == old(out)@ + signed_decimal(n as int),
{
    if n < 0 {
        out.push('-');
        push_decimal(out, magnitude(n));
    } else {
        push_decimal(out, n as u64);
    }
    assert(out@ =~= old(out)@ + signed_decimal(n as int));
}

// ------------------------------------------------------------ rendering --

/// What the numbers say, once the caller has done the arithmetic.
#[derive(Debug)]
pub struct Computed {
    /// The value as a plain number, for a code that is not modelled.
    pub plain: String,
    /// The numeric body of the section, laid out.
    pub body: String,
    /// The value read as a date.
    pub date: DateParts,
}

/// What a part contributes to a number.
pub open spec fn part_text(part: PartView, c: Computed, twelve_hour: bool) -> Seq<char> {
    match part {
        PartView::Literal(l) => l,
        PartView::Number(_) => c.body@,
        PartView::DateTime(t) => token_text(t, c.date, twelve_hour),
        PartView::TextSlot => Seq::empty(),
        PartView::Fill(_) => seq![' '],
        PartView::Skip => seq![' '],
    }
}

pub open spec fn parts_text(parts: Seq<PartView>, c: Computed, twelve_hour: bool) -> Seq<char>
    decreases parts.len(),
{
    if parts.len() == 0 {
        Seq::empty()
    } else {
        parts_text(parts.drop_last(), c, twelve_hour) + part_text(parts.last(), c, twelve_hour)
    }
}

impl SectionView {
    /// A number through this section: the plain number where the code is not
    /// modelled, else a minus if one is due and then the parts in order.
    pub open spec fn number_text(self, minus: bool, c: Computed) -> Seq<char> {
        if self.passthrough {
            c.plain@
        } else if minus {
            seq!['-'] + parts_text(self.parts, c, self.twelve_hour)
        } else {
            parts_text(self.parts, c, self.twelve_hour)
        }
    }
}

/// What was found unmodelled stays so.
proof fn lemma_unmodelled_stays(d: DraftView, cs: Seq<char>, i: int)
    requires
        d.unmodelled,
    ensures
        d.read(cs, i).unmodelled,
    decreases cs.len() - i,
{
    if !(i < 0 || !(i < lex(cs, i).1 <= cs.len())) {
        lemma_unmodelled_stays(d.after(cs, lex(cs, i).0), cs, lex(cs, i).1);
    }
}

/// A fraction shows the plain number: `d` has read digit places, and a slash with a
/// denominator behind it comes next.
pub proof fn a_fraction_shows_the_plain_number(
    d: DraftView,
    cs: Seq<char>,
    i: int,
    minus: bool,
    c: Computed,
)
    requires
        0 <= i < cs.len() <= usize::MAX,
        d.saw_number,
        cs[i] == '/',
        denominator_from(cs, i + 1),
    ensures
        d.read(cs, i).finished().number_text(minus, c) == c.plain@,
{
    let tok = lex(cs, i).0;
    assert(tok == Tok::Slash { at: i as usize, more: true });
    lemma_unmodelled_stays(d.after(cs, tok), cs, i + 1);
}

proof fn lemma_found_later(cs: Seq<char>, c: char, i: int)
    requires
        0 <= i <= cs.len(),
    ensures
        i <= find_from(cs, c, i) <= cs.len(),
    decreases cs.len() - i,
{
    if i < cs.len() && cs[i] != c {
        lemma_found_later(cs, c, i + 1);
    }
}

/// A bracket that holds none of what is known here shows the plain number, as
/// `[DBNum1]` does.
pub proof fn an_unknown_bracket_shows_the_plain_number(
    d: DraftView,
    cs: Seq<char>,
    i: int,
    minus: bool,
    c: Computed,
)
    requires
        0 <= i < cs.len() <= usize::MAX,
        cs[i] == '[',
        find_from(cs, ']', i) < cs.len(),
        ({
            let t = trimmed(cs.subrange(i + 1, find_from(cs, ']', i)));
            let low = ascii_lowered(t);
            &&& FmtColor::named(t) is None
            &&& condition_of(t) is None
            &&& low.len() > 0 ==> !all_are(low, 'h') && !all_are(low, 'm') && !all_are(low, 's')
                && low[0] != '$'
        }),
    ensures
        d.read(cs, i).finished().number_text(minus, c) == c.plain@,
{
    let q = find_from(cs, ']', i);
    lemma_found_later(cs, ']', i);
    let tok = lex(cs, i).0;
    assert(tok == Tok::Bracket { from: (i + 1) as usize, to: q as usize });
    assert(d.after(cs, tok).unmodelled);
    lemma_unmodelled_stays(d.after(cs, tok), cs, q + 1);
}

impl Section {
    /// The spec of the first numeric body, if this section has one.
    pub fn number_spec(&self) -> (r: Option<NumSpec>)
        ensures
            match r {
                Some(n) => exists|i: int|
                    0 <= i < self@.parts.len() && #[trigger] self@.parts[i] == PartView::Number(n)
                        && (forall|k: int|
                        0 <= k < i ==> !((#[trigger] self@.parts[k]) is Number)),
                None => forall|i: int|
                    0 <= i < self@.parts.len() ==> !((#[trigger] self@.parts[i]) is Number),
            },
    {
        let mut i: usize = 0;
        while i < self.parts.len()
            invariant
                i <= self.parts@.len(),
                forall|k: int| 0 <= k < i ==> !((#[trigger] self@.parts[k]) is Number),
            decreases self.parts@.len() - i,
        {
            assert(self@.parts[i as int] == self.parts@[i as int]@);
            match &self.parts[i] {
                Part::Number(n) => {
                    return Some(*n);
                },
                _ => {},
            }
            i = i + 1;
        }
        None
    }

    /// Render a number through this section's parts. Placeholders format the
    /// magnitude; `minus` puts a sign in front.
    pub fn render_number(&self, minus: bool, c: &Computed) -> (out: String)
        ensures
            out@ == self@.number_text(minus, *c),
    {
        if self.passthrough {
            return c.plain.clone();
        }
        let mut out = String::new();
        if minus {
            out.push('-');
        }
        let ghost lead = out@;
        let ghost views = self@.parts;
        let mut i: usize = 0;
        assert(views.subrange(0, 0) =~= Seq::<PartView>::empty());
        while i < self.parts.len()
            invariant
                i <= self.parts@.len(),
                views == part_views(self.parts@),
                out@ == lead + parts_text(views.subrange(0, i as int), *c, self.twelve_hour),
            decreases self.parts@.len() - i,
        {
            proof {
                let t = views.subrange(0, i + 1);
                assert(t.drop_last() =~= views.subrange(0, i as int));
                assert(t.last() == self.parts@[i as int]@);
            }
            let ghost so_far = out@;
            match &self.parts[i] {
                Part::Literal(l) => out.push_str(l.as_str()),
                Part::Number(_) => out.push_str(c.body.as_str()),
                Part::DateTime(t) => push_token(&mut out, *t, &c.date, self.twelve_hour),
                Part::TextSlot => {},
                Part::Fill(_) => out.push(' '),
                Part::Skip => out.push(' '),
            }
            i = i + 1;
            assert(out@ =~= lead + parts_text(views.subrange(0, i as int), *c, self.twelve_hour));
        }
        assert(views.subrange(0, views.len() as int) =~= views);
        out
    }
}

// ------------------------------------------------------------- arithmetic --

/// The bits of a hundred and of a thousand.
pub const HUNDRED64: u64 = 0x4059_0000_0000_0000;

pub const THOUSAND64: u64 = 0x408f_4000_0000_0000;

/// The arithmetic that rendering needs: product and quotient of two numbers, a
/// number in full with so many decimals, the power of ten of a number that is not
/// zero, a number over a power of ten with so many decimals, a number as it is shown
/// without a format, and a number read as a date.
pub struct NumberOps<T, D, R, X, M, P, C> {
    pub times: T,
    pub over: D,
    pub rounded: R,
    pub exponent: X,
    pub mantissa: M,
    pub plain: P,
    pub date: C,
}

/// `steps` are `v` and then what each of `n` applications makes of it.
pub open spec fn stepped<F: Fn(F64, F64) -> F64>(
    f: F,
    by: F64,
    n: nat,
    v: F64,
    steps: Seq<F64>,
) -> bool {
    &&& steps.len() == n + 1
    &&& steps[0] == v
    &&& forall|i: int| 0 <= i < n ==> f.ensures((#[trigger] steps[i], by), steps[i + 1])
}

/// `r` is what `n` applications make of `v`.
pub open spec fn applied<F: Fn(F64, F64) -> F64>(f: F, by: F64, n: nat, v: F64, r: F64) -> bool {
    exists|steps: Seq<F64>| #[trigger] stepped(f, by, n, v, steps) && steps.last() == r
}

fn apply_times<F: Fn(F64, F64) -> F64>(f: &F, by: F64, n: usize, v: F64) -> (r: F64)
    requires
        forall|x: F64, y: F64| #[trigger] f.requires((x, y)),
    ensures
        applied(*f, by, n as nat, v, r),
{
    let mut r = v;
    let ghost mut steps: Seq<F64> = seq![v];
    let mut i: usize = 0;
    while i < n
        invariant
            i <= n,
            forall|x: F64, y: F64| #[trigger] f.requires((x, y)),
            stepped(*f, by, i as nat, v, steps),
            steps.last() == r,
        decreases n - i,
    {
        let ghost before = steps;
        let ghost was = r;
        r = f(r, by);
        proof {
            steps = steps.push(r);
            assert forall|k: int| 0 <= k < i + 1 implies f.ensures(
                (#[trigger] steps[k], by),
                steps[k + 1],
            ) by {
                if k < i {
                    assert(steps[k] == before[k]);
                    assert(steps[k + 1] == before[k + 1]);
                } else {
                    assert(steps[k] == was);
                }
            }
        }
        i = i + 1;
    }
    assert(applied(*f, by, n as nat, v, r));
    r
}

impl<
    T: Fn(F64, F64) -> F64,
    D: Fn(F64, F64) -> F64,
    R: Fn(F64, usize) -> String,
    X: Fn(F64) -> i32,
    M: Fn(F64, i32, usize) -> String,
    P: Fn(F64) -> String,
    C: Fn(F64) -> DateParts,
> NumberOps<T, D, R, X, M, P, C> {
    /// The operations can be applied to every number, but for the power of ten of
    /// zero, and no power of ten is the least there can be.
    pub open spec fn ready(&self) -> bool {
        &&& forall|x: F64, y: F64| #[trigger] self.times.requires((x, y))
        &&& forall|x: F64, y: F64| #[trigger] self.over.requires((x, y))
        &&& forall|x: F64, n: usize| #[trigger] self.rounded.requires((x, n))
        &&& forall|x: F64| x.rank() != 0 ==> #[trigger] self.exponent.requires((x,))
        &&& forall|x: F64, e: i32| #[trigger] self.exponent.ensures((x,), e) ==> e > i32::MIN
        &&& forall|x: F64, e: i32, n: usize| #[trigger] self.mantissa.requires((x, e, n))
        &&& forall|x: F64| #[trigger] self.plain.requires((x,))
        &&& forall|x: F64| #[trigger] self.date.requires((x,))
    }

    /// `scaled` is `v` times a hundred for every percent sign and over a thousand for
    /// every trailing comma.
    pub open spec fn scaled(&self, spec: NumSpec, v: F64, scaled: F64) -> bool {
        exists|up: F64|
            {
                &&& #[trigger] applied(self.times, F64(HUNDRED64), spec.percents as nat, v, up)
                &&& applied(self.over, F64(THOUSAND64), spec.scale_commas as nat, up, scaled)
            }
    }

    /// `text` is the scaled number laid out: in full, or in scientific notation, in
    /// which zero has the power zero.
    pub open spec fn laid_out(&self, spec: NumSpec, scaled: F64, text: Seq<char>) -> bool {
        match spec.exponent {
            None => exists|w: String| #[trigger]
                self.rounded.ensures((scaled, spec.dec_max), w) && text == spec.layout_spec(w@),
            Some(digits) => if scaled.rank() == 0 {
                exists|m: String| #[trigger]
                    self.mantissa.ensures((F64(0), 0, spec.dec_max), m) && text
                        == NumSpec::scientific_spec(m@, 0, digits as nat)
            } else {
                exists|e: i32, m: String|
                    {
                        &&& #[trigger] self.exponent.ensures((scaled,), e)
                        &&& #[trigger] self.mantissa.ensures((scaled, e, spec.dec_max), m)
                        &&& text == NumSpec::scientific_spec(m@, e as int, digits as nat)
                    }
            },
        }
    }

    /// `c` is what a section needs to know of `v`: the number as it is where the code
    /// is not modelled, its magnitude laid out where there is a body, its date where
    /// there is a date.
    pub open spec fn computed(&self, sec: SectionView, v: F64, c: Computed) -> bool {
        &&& sec.passthrough ==> self.plain.ensures((v,), c.plain)
        &&& forall|i: int|
            0 <= i < sec.parts.len() && (#[trigger] sec.parts[i]) is DateTime
                ==> self.date.ensures((v,), c.date)
        &&& forall|i: int|
            0 <= i < sec.parts.len() && (#[trigger] sec.parts[i]) is Number && (forall|k: int|
                0 <= k < i ==> !((#[trigger] sec.parts[k]) is Number)) ==> exists|scaled: F64|
                {
                    &&& #[trigger] self.scaled(
                        sec.parts[i]->Number_0,
                        F64(v.magnitude_spec() as u64),
                        scaled,
                    )
                    &&& self.laid_out(sec.parts[i]->Number_0, scaled, c.body@)
                }
    }
}

impl NumSpec {
    /// Scale a magnitude and lay it out.
    pub fn render<
        T: Fn(F64, F64) -> F64,
        D: Fn(F64, F64) -> F64,
        R: Fn(F64, usize) -> String,
        X: Fn(F64) -> i32,
        M: Fn(F64, i32, usize) -> String,
        P: Fn(F64) -> String,
        C: Fn(F64) -> DateParts,
    >(&self, v: F64, ops: &NumberOps<T, D, R, X, M, P, C>) -> (out: String)
        requires
            ops.ready(),
        ensures
            exists|scaled: F64| #[trigger]
                ops.scaled(*self, v, scaled) && ops.laid_out(*self, scaled, out@),
    {
        let up = apply_times(&ops.times, F64(HUNDRED64), self.percents, v);
        let scaled = apply_times(&ops.over, F64(THOUSAND64), self.scale_commas, up);
        assert(ops.scaled(*self, v, scaled));
        match self.exponent {
            None => {
                let w = (ops.rounded)(scaled, self.dec_max);
                self.layout(w.as_str())
            },
            Some(digits) => self.render_scientific(scaled, digits, ops),
        }
    }

    fn render_scientific<
        T: Fn(F64, F64) -> F64,
        D: Fn(F64, F64) -> F64,
        R: Fn(F64, usize) -> String,
        X: Fn(F64) -> i32,
        M: Fn(F64, i32, usize) -> String,
        P: Fn(F64) -> String,
        C: Fn(F64) -> DateParts,
    >(&self, v: F64, digits: usize, ops: &NumberOps<T, D, R, X, M, P, C>) -> (out: String)
        requires
            ops.ready(),
            self.exponent == Some(digits),
        ensures
            ops.laid_out(*self, v, out@),
    {
        if v.is_zero() {
            let m = (ops.mantissa)(F64(0), 0, self.dec_max);
            return Self::layout_scientific(m.as_str(), 0, digits);
        }
        let e = (ops.exponent)(v);
        let m = (ops.mantissa)(v, e, self.dec_max);
        Self::layout_scientific(m.as_str(), e, digits)
    }
}

impl Section {
    fn has_date(&self) -> (b: bool)
        ensures
            b == exists|i: int| 0 <= i < self@.parts.len() && (#[trigger] self@.parts[i]) is DateTime,
    {
        let mut i: usize = 0;
        while i < self.parts.len()
            invariant
                i <= self.parts@.len(),
                forall|k: int| 0 <= k < i ==> !((#[trigger] self@.parts[k]) is DateTime),
            decreases self.parts@.len() - i,
        {
            assert(self@.parts[i as int] == self.parts@[i as int]@);
            match &self.parts[i] {
                Part::DateTime(_) => {
                    return true;
                },
                _ => {},
            }
            i = i + 1;
        }
        false
    }

    fn compute<
        T: Fn(F64, F64) -> F64,
        D: Fn(F64, F64) -> F64,
        R: Fn(F64, usize) -> String,
        X: Fn(F64) -> i32,
        M: Fn(F64, i32, usize) -> String,
        P: Fn(F64) -> String,
        C: Fn(F64) -> DateParts,
    >(&self, v: F64, ops: &NumberOps<T, D, R, X, M, P, C>) -> (c: Computed)
        requires
            ops.ready(),
        ensures
            ops.computed(self@, v, c),
    {
        let plain = if self.passthrough {
            (ops.plain)(v)
        } else {
            String::new()
        };
        let found = self.number_spec();
        let body = match found {
            Some(spec) => spec.render(F64(v.magnitude()), ops),
            None => String::new(),
        };
        let date = if self.has_date() {
            (ops.date)(v)
        } else {
            DateParts::default()
        };
        let c = Computed { plain, body, date };
        proof {
            let parts = self@.parts;
            let size = F64(v.magnitude_spec() as u64);
            assert forall|i: int|
                0 <= i < parts.len() && (#[trigger] parts[i]) is Number && (forall|k: int|
                    0 <= k < i ==> !((#[trigger] parts[k]) is Number)) implies exists|scaled: F64|
                #[trigger]
                ops.scaled(parts[i]->Number_0, size, scaled) && ops.laid_out(
                    parts[i]->Number_0,
                    scaled,
                    c.body@,
                ) by {
                let spec = found->0;
                let j = choose|j: int|
                    0 <= j < parts.len() && #[trigger] parts[j] == PartView::Number(spec) && (
                    forall|k: int| 0 <= k < j ==> !((#[trigger] parts[k]) is Number));
                assert(i == j);
                let scaled = choose|scaled: F64| #[trigger]
                    ops.scaled(spec, size, scaled) && ops.laid_out(spec, scaled, body@);
                assert(ops.scaled(parts[i]->Number_0, size, scaled));
            }
        }
        c
    }
}

impl NumFmt {
    /// Render a number: the section for it, the minus that is due, and the parts in
    /// order.
    pub fn render_with<
        T: Fn(F64, F64) -> F64,
        D: Fn(F64, F64) -> F64,
        R: Fn(F64, usize) -> String,
        X: Fn(F64) -> i32,
        M: Fn(F64, i32, usize) -> String,
        P: Fn(F64) -> String,
        C: Fn(F64) -> DateParts,
    >(&self, v: F64, limits: &Vec<F64>, ops: &NumberOps<T, D, R, X, M, P, C>) -> (out: String)
        requires
            ops.ready(),
            self@.len() > 0,
            limits@.len() == self@.len(),
        ensures
            exists|c: Computed|
                {
                    &&& #[trigger] ops.computed(self@[section_index(self@, v, limits@)], v, c)
                    &&& out@ == self@[section_index(self@, v, limits@)].number_text(
                        needs_sign(self@, v, limits@) && v.lt_spec(F64(0)),
                        c,
                    )
                },
    {
        let c = self.section_for(v, limits).compute(v, ops);
        self.render(v, limits, &c)
    }
}

impl Default for DateParts {
    fn default() -> (p: DateParts)
        ensures
            p == (DateParts {
                year: 0,
                month: 0,
                day: 0,
                hour: 0,
                minute: 0,
                second: 0,
                weekday: 0,
                elapsed_hours: 0,
                elapsed_minutes: 0,
                elapsed_seconds: 0,
            }),
    {
        DateParts {
            year: 0,
            month: 0,
            day: 0,
            hour: 0,
            minute: 0,
            second: 0,
            weekday: 0,
            elapsed_hours: 0,
            elapsed_minutes: 0,
            elapsed_seconds: 0,
        }
    }
}

/// What the text section makes of `s`: its literals, with `s` at each slot.
pub open spec fn text_parts(parts: Seq<PartView>, s: Seq<char>) -> Seq<char>
    decreases parts.len(),
{
    if parts.len() == 0 {
        Seq::empty()
    } else {
        text_parts(parts.drop_last(), s) + match parts.last() {
            PartView::Literal(l) => l,
            PartView::TextSlot => s,
            PartView::Fill(_) => seq![' '],
            PartView::Skip => seq![' '],
            _ => Seq::empty(),
        }
    }
}

impl NumFmt {
    /// Render a number, `c` being what the caller computed for the section that
    /// [`NumFmt::section_for`] gives.
    pub fn render(&self, v: F64, limits: &Vec<F64>, c: &Computed) -> (out: String)
        requires
            self@.len() > 0,
            limits@.len() == self@.len(),
        ensures
            out@ == self@[section_index(self@, v, limits@)].number_text(
                needs_sign(self@, v, limits@) && v.lt_spec(F64(0)),
                *c,
            ),
    {
        let minus = self.negative_needs_sign(v, limits) && v.less_than(F64(0));
        self.section_for(v, limits).render_number(minus, c)
    }

    /// What a text cell shows: the text through the fourth section, or the text
    /// as it is when there is none or it comes to nothing.
    pub open spec fn text_spec(sections: Seq<SectionView>, s: Seq<char>) -> Seq<char> {
        if sections.len() > 3 && text_parts(sections[3].parts, s).len() > 0 {
            text_parts(sections[3].parts, s)
        } else {
            s
        }
    }

    /// Render the text section (`@`) for a text cell. A numeric section is
    /// never applied to text.
    pub fn render_text(&self, s: &str) -> (out: String)
        ensures
            out@ == Self::text_spec(self@, s@),
    {
        if self.sections.len() <= 3 {
            return s.to_owned();
        }
        let sec = &self.sections[3];
        assert(self@[3] == sec@);
        let ghost views = sec@.parts;
        let mut out = String::new();
        let mut i: usize = 0;
        assert(views.subrange(0, 0) =~= Seq::<PartView>::empty());
        while i < sec.parts.len()
            invariant
                i <= sec.parts@.len(),
                views == part_views(sec.parts@),
                out@ == text_parts(views.subrange(0, i as int), s@),
            decreases sec.parts@.len() - i,
        {
            proof {
                let t = views.subrange(0, i + 1);
                assert(t.drop_last() =~= views.subrange(0, i as int));
                assert(t.last() == sec.parts@[i as int]@);
            }
            match &sec.parts[i] {
                Part::Literal(l) => out.push_str(l.as_str()),
                Part::TextSlot => out.push_str(s),
                Part::Fill(_) => out.push(' '),
                Part::Skip => out.push(' '),
                _ => {},
            }
            i = i + 1;
            assert(out@ =~= text_parts(views.subrange(0, i as int), s@));
        }
        assert(views.subrange(0, views.len() as int) =~= views);
        if out.as_str().is_empty() {
            s.to_owned()
        } else {
            out
        }
    }
}

} // verus!
