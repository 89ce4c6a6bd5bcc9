//! Conditional rules: what a cell's value does to its style.
//!
//! A rule sees one cell. Colour scales, data bars and rank rules also need to know
//! something of the column as a whole, a [`RuleEval`], which is computed over the
//! visible rows only; without it they do nothing.

use crate::format::Typography;
use crate::numfmt::CmpOp;
use crate::sorting::{sorted, Ordered};
use crate::table::Rgb;
use crate::interchange::scan::lemma_find_word;
use crate::text::{chars_of, contains_str, find_word, has_at, has_word, lowercase, to_lowercase};
use crate::value::{largest, largest_of, smallest, smallest_of, Value, F64, SIGN64};
use vstd::prelude::*;

verus! {

/// How numbers in a cell are shown.
#[derive(Clone, Debug, PartialEq)]
pub enum NumberFormat {
    /// No format.
    General,
    Decimal { places: u8 },
    Thousands { places: u8 },
    Currency { symbol: String, places: u8 },
    Percent { places: u8 },
    /// A format code.
    Custom(String),
}

impl Default for NumberFormat {
    fn default() -> (f: NumberFormat)
        ensures
            f is General,
    {
        NumberFormat::General
    }
}

/// A rule that may change how a cell looks.
#[derive(Clone, Debug, PartialEq)]
pub enum ConditionalRule {
    /// A colour picked by hand, with no condition.
    Manual { fill: Option<Rgb>, text: Option<Rgb>, typography: Typography },
    /// Text colour by the sign of the number.
    Sign { negative: Option<Rgb>, positive: Option<Rgb>, zero: Option<Rgb> },
    Threshold { op: CmpOp, value: F64, fill: Rgb, text: Rgb },
    /// The `n` largest or smallest values.
    TopBottom { top: bool, n: u32, fill: Rgb, text: Rgb },
    TextContains { needle: String, fill: Rgb, text: Rgb },
    ColorScale2 { min: Rgb, max: Rgb },
    DataBar { color: Rgb },
}

/// A cell's resolved look.
#[derive(Clone, Copy, Debug, PartialEq, Eq)]
pub struct CellStyle {
    pub fill: Option<Rgb>,
    pub text: Option<Rgb>,
    /// How long a bar is drawn, and its colour.
    pub bar: Option<(F64, Rgb)>,
    pub typography: Typography,
}

impl CellStyle {
    pub open spec fn plain() -> CellStyle {
        CellStyle { fill: None, text: None, bar: None, typography: Typography::inherit() }
    }

    /// Whether nothing is set.
    pub fn is_plain(&self) -> (b: bool)
        ensures
            b == (*self == CellStyle::plain()),
    {
        self.fill.is_none() && self.text.is_none() && self.bar.is_none()
            && self.typography.is_empty()
    }

    /// With a fill and a text colour.
    pub open spec fn coloured(self, fill: Rgb, text: Rgb) -> CellStyle {
        CellStyle { fill: Some(fill), text: Some(text), ..self }
    }

    /// With what is set by hand; what is not set stays.
    pub open spec fn under(
        self,
        fill: Option<Rgb>,
        text: Option<Rgb>,
        typography: Typography,
    ) -> CellStyle {
        CellStyle {
            fill: if fill is Some {
                fill
            } else {
                self.fill
            },
            text: if text is Some {
                text
            } else {
                self.text
            },
            bar: self.bar,
            typography: typography.over(self.typography),
        }
    }
}

impl Default for CellStyle {
    fn default() -> (s: CellStyle)
        ensures
            s == CellStyle::plain(),
    {
        CellStyle { fill: None, text: None, bar: None, typography: Typography::default() }
    }
}

// ----------------------------------------------------------- window context --

/// What a rule needs to know of its column and one cell cannot say, computed over
/// the visible rows.
#[derive(Clone, Copy, PartialEq, Eq, Debug)]
pub struct RuleEval {
    /// Smallest and largest number in the window.
    pub extent: Option<(F64, F64)>,
    /// The value at the Nth place from the end a rank rule asks for.
    pub cut: Option<F64>,
}

impl RuleEval {
    pub open spec fn nothing() -> RuleEval {
        RuleEval { extent: None, cut: None }
    }
}

impl Default for RuleEval {
    fn default() -> (e: RuleEval)
        ensures
            e == RuleEval::nothing(),
    {
        RuleEval { extent: None, cut: None }
    }
}

/// A number's place in the total order of all numbers, in which the negative zero
/// stands before the other and what is no number at the ends.
pub open spec fn total_place(x: F64) -> int {
    if x.0 >= SIGN64 {
        -1 - (x.0 - SIGN64)
    } else {
        x.0 as int
    }
}

/// Different numbers have different places.
pub proof fn total_places_are_distinct(a: F64, b: F64)
    ensures
        total_place(a) == total_place(b) ==> a == b,
{
}

/// A number ordered by its place.
struct Ranked(F64);

impl Ordered for Ranked {
    closed spec fn precedes(self, other: Ranked) -> bool {
        total_place(self.0) < total_place(other.0)
    }

    proof fn asymmetric(a: Ranked, b: Ranked) {
    }

    proof fn transitive(a: Ranked, b: Ranked, c: Ranked) {
    }

    fn is_before(&self, other: &Ranked) -> (b: bool) {
        let a: u64 = self.0.0;
        let c: u64 = other.0.0;
        if a >= SIGN64 {
            if c >= SIGN64 {
                a > c
            } else {
                true
            }
        } else if c >= SIGN64 {
            false
        } else {
            a < c
        }
    }
}

/// `s` holds the values in the total order.
pub open spec fn ranked(values: Seq<F64>, s: Seq<F64>) -> bool {
    &&& s.to_multiset() == values.to_multiset()
    &&& forall|i: int, j: int|
        0 <= i < j < s.len() ==> total_place(#[trigger] s[i]) <= total_place(#[trigger] s[j])
}

/// `x` stands at `index` when the values are in the total order.
pub open spec fn ranks_at(values: Seq<F64>, index: int, x: F64) -> bool {
    exists|s: Seq<F64>| #[trigger] ranked(values, s) && 0 <= index < s.len() && s[index] == x
}

/// The index that a rank rule cuts at: the Nth from its end, within the window.
pub open spec fn cut_index(len: int, top: bool, n: u32) -> int {
    let m = if n < 1 {
        1
    } else if n > len {
        len
    } else {
        n as int
    };
    if top {
        len - m
    } else {
        m - 1
    }
}

fn value_at_rank(values: &Vec<F64>, index: usize) -> (x: F64)
    requires
        index < values@.len(),
    ensures
        ranks_at(values@, index as int, x),
{
    let n: usize = values.len();
    let mut v: Vec<Ranked> = Vec::with_capacity(n);
    let mut i: usize = 0;
    while i < n
        invariant
            i <= n == values@.len(),
            v@.len() == i,
            forall|k: int| 0 <= k < i ==> (#[trigger] v@[k]).0 == values@[k],
        decreases n - i,
    {
        v.push(Ranked(values[i]));
        i = i + 1;
    }
    let ghost before = v@;
    let r = sorted(v);
    proof {
        let f = |p: Ranked| p.0;
        let s = r@.map_values(f);
        assert(before.map_values(f) =~= values@);
        r@.to_multiset_ensures();
        before.to_multiset_ensures();
        lemma_same_multiset(r@, before);
        assert(s.to_multiset() == values@.to_multiset());
        assert forall|i: int, j: int| 0 <= i < j < s.len() implies total_place(#[trigger] s[i])
            <= total_place(#[trigger] s[j]) by {
            assert(!r@[j].precedes(r@[i]));
        }
        assert(ranked(values@, s));
    }
    r[index].0
}

/// The same values in another order give the same numbers in another order.
proof fn lemma_same_multiset(a: Seq<Ranked>, b: Seq<Ranked>)
    requires
        a.to_multiset() == b.to_multiset(),
    ensures
        a.map_values(|p: Ranked| p.0).to_multiset() == b.map_values(
            |p: Ranked| p.0,
        ).to_multiset(),
    decreases a.len(),
{
    let f = |p: Ranked| p.0;
    a.to_multiset_ensures();
    b.to_multiset_ensures();
    if a.len() == 0 {
        assert(b.len() == 0);
        assert(a.map_values(f) =~= b.map_values(f));
    } else {
        let x = a.last();
        assert(a.contains(x));
        assert(b.to_multiset().count(x) > 0);
        assert(b.contains(x));
        let i = choose|i: int| 0 <= i < b.len() && b[i] == x;
        let a1 = a.drop_last();
        let b1 = b.remove(i);
        assert(a1 =~= a.remove(a.len() - 1));
        assert(a1.to_multiset() =~= a.to_multiset().remove(x));
        assert(b1.to_multiset() =~= b.to_multiset().remove(x));
        lemma_same_multiset(a1, b1);
        let fa = a.map_values(f);
        let fb = b.map_values(f);
        fa.to_multiset_ensures();
        fb.to_multiset_ensures();
        assert(fa.remove(fa.len() - 1) =~= a1.map_values(f));
        assert(fb.remove(i) =~= b1.map_values(f));
        assert(fa[fa.len() - 1] == f(x) && fb[i] == f(x));
        assert(fa.remove(fa.len() - 1).to_multiset() =~= fa.to_multiset().remove(f(x)));
        assert(fb.remove(i).to_multiset() =~= fb.to_multiset().remove(f(x)));
        assert(fa.contains(fa[fa.len() - 1]) && fb.contains(fb[i]));
        assert(fa.to_multiset().count(f(x)) > 0 && fb.to_multiset().count(f(x)) > 0);
        assert(fa.to_multiset() =~= fa.to_multiset().remove(f(x)).insert(f(x)));
        assert(fb.to_multiset() =~= fb.to_multiset().remove(f(x)).insert(f(x)));
    }
}

impl ConditionalRule {
    pub open spec fn scales(self) -> bool {
        self is ColorScale2 || self is DataBar
    }

    /// Whether the rule needs the extent of its column.
    pub fn needs_extent(&self) -> (b: bool)
        ensures
            b == self.scales(),
    {
        match self {
            ConditionalRule::ColorScale2 { .. } => true,
            ConditionalRule::DataBar { .. } => true,
            _ => false,
        }
    }

    /// Whether the rule needs to see a window of its column.
    pub fn needs_window(&self) -> (b: bool)
        ensures
            b == (self.scales() || *self is TopBottom),
    {
        match self {
            ConditionalRule::ColorScale2 { .. } => true,
            ConditionalRule::DataBar { .. } => true,
            ConditionalRule::TopBottom { .. } => true,
            _ => false,
        }
    }

    /// Whether the rule needs the cell's display text.
    pub fn needs_text(&self) -> (b: bool)
        ensures
            b == (*self is TextContains),
    {
        match self {
            ConditionalRule::TextContains { .. } => true,
            _ => false,
        }
    }
}

impl RuleEval {
    /// What a rule needs to know of a window of numbers. A rule that needs neither
    /// extent nor rank, or an empty window, gives nothing.
    pub fn for_rule(rule: &ConditionalRule, values: &Vec<F64>) -> (e: RuleEval)
        ensures
            e.extent == if values@.len() > 0 && rule.scales() {
                Some((smallest(values@), largest(values@)))
            } else {
                None
            },
            match *rule {
                ConditionalRule::TopBottom { top, n, .. } => if values@.len() > 0 {
                    e.cut is Some && ranks_at(
                        values@,
                        cut_index(values@.len() as int, top, n),
                        e.cut->0,
                    )
                } else {
                    e.cut is None
                },
                _ => e.cut is None,
            },
    {
        let mut out = RuleEval::default();
        let len: usize = values.len();
        if len == 0 {
            return out;
        }
        if rule.needs_extent() {
            out.extent = Some((smallest_of(values), largest_of(values)));
        }
        match rule {
            ConditionalRule::TopBottom { top, n, .. } => {
                let m: usize = if *n < 1 {
                    1
                } else if *n as u64 > len as u64 {
                    len
                } else {
                    *n as usize
                };
                let index: usize = if *top {
                    len - m
                } else {
                    m - 1
                };
                out.cut = Some(value_at_rank(values, index));
            },
            _ => {},
        }
        out
    }
}

/// Only one value can stand at an index of the total order.
pub proof fn the_cut_is_unique(values: Seq<F64>, index: int, x: F64, y: F64)
    requires
        ranks_at(values, index, x),
        ranks_at(values, index, y),
    ensures
        x == y,
{
    let s = choose|s: Seq<F64>| #[trigger]
        ranked(values, s) && 0 <= index < s.len() && s[index] == x;
    let t = choose|t: Seq<F64>| #[trigger]
        ranked(values, t) && 0 <= index < t.len() && t[index] == y;
    lemma_ranked_once(s, t);
}

proof fn lemma_ranked_once(s: Seq<F64>, t: Seq<F64>)
    requires
        s.to_multiset() == t.to_multiset(),
        forall|i: int, j: int|
            0 <= i < j < s.len() ==> total_place(#[trigger] s[i]) <= total_place(#[trigger] s[j]),
        forall|i: int, j: int|
            0 <= i < j < t.len() ==> total_place(#[trigger] t[i]) <= total_place(#[trigger] t[j]),
    ensures
        s == t,
    decreases s.len(),
{
    s.to_multiset_ensures();
    t.to_multiset_ensures();
    if s.len() == 0 {
        assert(s =~= t);
    } else {
        let n = s.len() - 1;
        let x = s[n];
        let y = t[n];
        assert(s.contains(x) && t.contains(y));
        assert(t.to_multiset().count(x) > 0 && s.to_multiset().count(y) > 0);
        assert(t.contains(x) && s.contains(y));
        let i = choose|i: int| 0 <= i < t.len() && t[i] == x;
        let j = choose|j: int| 0 <= j < s.len() && s[j] == y;
        assert(total_place(x) <= total_place(y)) by {
            if i < n {
                assert(total_place(t[i]) <= total_place(t[n]));
            }
        }
        assert(total_place(y) <= total_place(x)) by {
            if j < n {
                assert(total_place(s[j]) <= total_place(s[n]));
            }
        }
        total_places_are_distinct(x, y);
        let s1 = s.remove(n);
        let t1 = t.remove(n);
        assert(s1.to_multiset() =~= s.to_multiset().remove(x));
        assert(t1.to_multiset() =~= t.to_multiset().remove(y));
        lemma_ranked_once(s1, t1);
        assert(s =~= s1.push(x));
        assert(t =~= t1.push(y));
    }
}

// ---------------------------------------------------------------- applying --

/// What depends on arithmetic: the colour of a value on a scale between two
/// colours, and the length of its bar.
pub struct Painter<C, B> {
    pub scale: C,
    pub bar: B,
}

impl<C: Fn(Rgb, Rgb, F64, F64, F64) -> Rgb, B: Fn(F64, F64, F64) -> F64> Painter<C, B> {
    pub open spec fn ready(&self) -> bool {
        &&& forall|a: Rgb, b: Rgb, x: F64, lo: F64, hi: F64| #[trigger]
            self.scale.requires((a, b, x, lo, hi))
        &&& forall|x: F64, lo: F64, hi: F64| #[trigger] self.bar.requires((x, lo, hi))
    }

    /// `t` is the style `s` after the rule has seen a cell.
    pub open spec fn applied(
        &self,
        rule: ConditionalRule,
        value: Value,
        display: Seq<char>,
        eval: RuleEval,
        s: CellStyle,
        t: CellStyle,
    ) -> bool {
        match rule {
            ConditionalRule::Manual { fill, text, typography } => t == s.under(
                fill,
                text,
                typography,
            ),
            ConditionalRule::Sign { negative, positive, zero } => match value {
                Value::Number(x) => {
                    let colour = if x.lt_spec(F64(0)) {
                        negative
                    } else if F64(0).lt_spec(x) {
                        positive
                    } else if x.rank() == 0 {
                        zero
                    } else {
                        None
                    };
                    t == s.under(None, colour, Typography::inherit())
                },
                _ => t == s,
            },
            ConditionalRule::Threshold { op, value: limit, fill, text } => match value {
                Value::Number(x) => t == if op.holds_spec(x, limit) {
                    s.coloured(fill, text)
                } else {
                    s
                },
                _ => t == s,
            },
            ConditionalRule::TopBottom { top, fill, text, .. } => match (value, eval.cut) {
                (Value::Number(x), Some(cut)) => t == if (if top {
                    CmpOp::Ge
                } else {
                    CmpOp::Le
                }).holds_spec(x, cut) {
                    s.coloured(fill, text)
                } else {
                    s
                },
                _ => t == s,
            },
            ConditionalRule::TextContains { needle, fill, text } => t == if has_word(
                lowercase(display),
                lowercase(needle@),
            ) {
                s.coloured(fill, text)
            } else {
                s
            },
            ConditionalRule::ColorScale2 { min, max } => match (value, eval.extent) {
                (Value::Number(x), Some((lo, hi))) => t.fill is Some && self.scale.ensures(
                    (min, max, x, lo, hi),
                    t.fill->0,
                ) && t == (CellStyle { fill: t.fill, ..s }),
                _ => t == s,
            },
            ConditionalRule::DataBar { color } => match (value, eval.extent) {
                (Value::Number(x), Some((lo, hi))) => t.bar is Some && self.bar.ensures(
                    (x, lo, hi),
                    (t.bar->0).0,
                ) && (t.bar->0).1 == color && t == (CellStyle { bar: t.bar, ..s }),
                _ => t == s,
            },
        }
    }

    /// Let a rule see a cell.
    pub fn apply_cell(
        &self,
        rule: &ConditionalRule,
        value: &Value,
        display: &str,
        eval: RuleEval,
        style: &mut CellStyle,
    )
        requires
            self.ready(),
        ensures
            self.applied(*rule, *value, display@, eval, *old(style), *final(style)),
    {
        match rule {
            ConditionalRule::Manual { fill, text, typography } => {
                if fill.is_some() {
                    style.fill = *fill;
                }
                if text.is_some() {
                    style.text = *text;
                }
                let mut t = style.typography;
                typography.apply_to(&mut t);
                style.typography = t;
            },
            ConditionalRule::Sign { negative, positive, zero } => {
                if let Value::Number(x) = value {
                    let colour = if x.less_than(F64(0)) {
                        *negative
                    } else if F64(0).less_than(*x) {
                        *positive
                    } else if x.is_zero() {
                        *zero
                    } else {
                        None
                    };
                    if colour.is_some() {
                        style.text = colour;
                    }
                }
            },
            ConditionalRule::Threshold { op, value: limit, fill, text } => {
                if let Value::Number(x) = value {
                    if op.holds(*x, *limit) {
                        style.fill = Some(*fill);
                        style.text = Some(*text);
                    }
                }
            },
            ConditionalRule::TopBottom { top, n: _, fill, text } => {
                if let Value::Number(x) = value {
                    if let Some(cut) = eval.cut {
                        let op = if *top {
                            CmpOp::Ge
                        } else {
                            CmpOp::Le
                        };
                        if op.holds(*x, cut) {
                            style.fill = Some(*fill);
                            style.text = Some(*text);
                        }
                    }
                }
            },
            ConditionalRule::TextContains { needle, fill, text } => {
                let low = to_lowercase(display);
                let part = to_lowercase(needle.as_str());
                if contains_str(&chars_of(low.as_str()), part.as_str()) {
                    style.fill = Some(*fill);
                    style.text = Some(*text);
                }
            },
            ConditionalRule::ColorScale2 { min, max } => {
                if let Value::Number(x) = value {
                    if let Some((lo, hi)) = eval.extent {
                        let c = (self.scale)(*min, *max, *x, lo, hi);
                        style.fill = Some(c);
                    }
                }
            },
            ConditionalRule::DataBar { color } => {
                if let Value::Number(x) = value {
                    if let Some((lo, hi)) = eval.extent {
                        let b = (self.bar)(*x, lo, hi);
                        style.bar = Some((b, *color));
                    }
                }
            },
        }
    }
}

// -------------------------------------------------------------------- laws --

impl<C: Fn(Rgb, Rgb, F64, F64, F64) -> Rgb, B: Fn(F64, F64, F64) -> F64> Painter<C, B> {
    /// A threshold colours a number by where it stands on the number line: below the
    /// limit, on it or above it. Anything that is no number it leaves alone.
    pub proof fn a_threshold_colours_one_side_of_its_limit(
        &self,
        op: CmpOp,
        limit: F64,
        fill: Rgb,
        text: Rgb,
        value: Value,
        display: Seq<char>,
        eval: RuleEval,
        s: CellStyle,
        t: CellStyle,
    )
        requires
            self.applied(
                ConditionalRule::Threshold { op, value: limit, fill, text },
                value,
                display,
                eval,
                s,
                t,
            ),
            !limit.nan_spec(),
        ensures
            t.bar == s.bar && t.typography == s.typography,
            match value {
                Value::Number(x) => !x.nan_spec() ==> {
                    let wins = if x.rank() < limit.rank() {
                        op is Lt || op is Le || op is Ne
                    } else if x.rank() > limit.rank() {
                        op is Gt || op is Ge || op is Ne
                    } else {
                        op is Le || op is Ge || op is Eq
                    };
                    if wins {
                        t.fill == Some(fill) && t.text == Some(text)
                    } else {
                        t.fill == s.fill && t.text == s.text
                    }
                },
                _ => t == s,
            },
    {
    }

    /// A sign rule changes the text colour alone: below zero to the first colour, above
    /// it to the second, at either zero to the third, and each only where it is set.
    pub proof fn a_sign_picks_the_colour(
        &self,
        negative: Option<Rgb>,
        positive: Option<Rgb>,
        zero: Option<Rgb>,
        x: F64,
        display: Seq<char>,
        eval: RuleEval,
        s: CellStyle,
        t: CellStyle,
    )
        requires
            self.applied(
                ConditionalRule::Sign { negative, positive, zero },
                Value::Number(x),
                display,
                eval,
                s,
                t,
            ),
            !x.nan_spec(),
        ensures
            t.fill == s.fill && t.bar == s.bar && t.typography == s.typography,
            x.rank() < 0 && negative is Some ==> t.text == negative,
            x.rank() < 0 && negative is None ==> t.text == s.text,
            x.rank() > 0 && positive is Some ==> t.text == positive,
            x.rank() > 0 && positive is None ==> t.text == s.text,
            x.rank() == 0 && zero is Some ==> t.text == zero,
            x.rank() == 0 && zero is None ==> t.text == s.text,
    {
    }

    /// A text rule colours a cell when its words stand somewhere in what is shown,
    /// in any case of letters.
    pub proof fn a_text_rule_finds_its_words_in_any_case(
        &self,
        needle: String,
        fill: Rgb,
        text: Rgb,
        value: Value,
        display: Seq<char>,
        eval: RuleEval,
        s: CellStyle,
        t: CellStyle,
        before: Seq<char>,
        after: Seq<char>,
    )
        requires
            self.applied(
                ConditionalRule::TextContains { needle, fill, text },
                value,
                display,
                eval,
                s,
                t,
            ),
            needle@.len() > 0,
            lowercase(needle@).len() > 0,
        ensures
            lowercase(display) == before + lowercase(needle@) + after ==> t.fill == Some(fill)
                && t.text == Some(text),
            lowercase(needle@).len() > lowercase(display).len() ==> t == s,
    {
        let low = lowercase(display);
        let word = lowercase(needle@);
        if low == before + word + after {
            let at = before.len() as int;
            assert(low.subrange(at, at + word.len()) =~= word);
            assert(has_at(low, at, word));
            lemma_find_word(low, word, 0);
            assert(find_word(low, word, 0) <= at);
        }
        if word.len() > low.len() {
            lemma_find_word(low, word, 0);
        }
    }

    /// What a hand-picked rule sets, it sets whatever stands in the cell, and what it
    /// leaves open stays.
    pub proof fn a_hand_picked_look_does_not_ask(
        &self,
        fill: Option<Rgb>,
        text: Option<Rgb>,
        typography: Typography,
        value: Value,
        display: Seq<char>,
        eval: RuleEval,
        s: CellStyle,
        t: CellStyle,
    )
        requires
            self.applied(
                ConditionalRule::Manual { fill, text, typography },
                value,
                display,
                eval,
                s,
                t,
            ),
        ensures
            t.bar == s.bar,
            fill is Some ==> t.fill == fill,
            fill is None ==> t.fill == s.fill,
            text is Some ==> t.text == text,
            text is None ==> t.text == s.text,
    {
    }

    /// A rank rule colours a number when fewer than so many of its window stand beyond
    /// it: above it for the top, below it for the bottom.
    pub proof fn a_rank_rule_colours_the_first_so_many(
        &self,
        top: bool,
        n: u32,
        fill: Rgb,
        text: Rgb,
        values: Seq<F64>,
        x: F64,
        display: Seq<char>,
        eval: RuleEval,
        s: CellStyle,
        t: CellStyle,
    )
        requires
            self.applied(
                ConditionalRule::TopBottom { top, n, fill, text },
                Value::Number(x),
                display,
                eval,
                s,
                t,
            ),
            n > 0,
            values.contains(x),
            forall|i: int| 0 <= i < values.len() ==> !(#[trigger] values[i]).nan_spec(),
            eval.cut is Some,
            ranks_at(values, cut_index(values.len() as int, top, n), eval.cut->0),
        ensures
            beyond(values, top, x) < n ==> t == s.coloured(fill, text),
            beyond(values, top, x) >= n ==> t == s,
    {
        let index = cut_index(values.len() as int, top, n);
        let cut = eval.cut->0;
        let r = choose|r: Seq<F64>| #[trigger]
            ranked(values, r) && 0 <= index < r.len() && r[index] == cut;
        lemma_same_beyond(values, r, top, x);
        values.to_multiset_ensures();
        r.to_multiset_ensures();
        assert(values.to_multiset().count(x) > 0);
        assert(r.to_multiset().count(x) > 0);
        assert(r.contains(x));
        assert forall|i: int| 0 <= i < r.len() implies !(#[trigger] r[i]).nan_spec() by {
            assert(r.contains(r[i]));
            assert(values.to_multiset().count(r[i]) > 0);
            assert(values.contains(r[i]));
        }
        assert(r.len() == values.len());
        let k = choose|k: int| 0 <= k < r.len() && r[k] == x;
        if top {
            lemma_beyond_top(r, index, x, k);
        } else {
            lemma_beyond_bottom(r, index, x, k);
        }
    }
}

/// How many of the values stand beyond `x`.
pub open spec fn beyond(values: Seq<F64>, top: bool, x: F64) -> nat
    decreases values.len(),
{
    if values.len() == 0 {
        0
    } else {
        let v = values.last();
        beyond(values.drop_last(), top, x) + if (if top {
            v.rank() > x.rank()
        } else {
            v.rank() < x.rank()
        }) {
            1nat
        } else {
            0nat
        }
    }
}

proof fn lemma_beyond_remove(values: Seq<F64>, i: int, top: bool, x: F64)
    requires
        0 <= i < values.len(),
    ensures
        beyond(values, top, x) == beyond(values.remove(i), top, x) + beyond(
            seq![values[i]],
            top,
            x,
        ),
    decreases values.len(),
{
    reveal_with_fuel(beyond, 2);
    let one = seq![values[i]];
    assert(one.drop_last() =~= Seq::<F64>::empty());
    assert(one.last() == values[i]);
    if i == values.len() - 1 {
        assert(values.remove(i) =~= values.drop_last());
    } else {
        let rest = values.remove(i);
        assert(rest.last() == values.last());
        assert(rest.drop_last() =~= values.drop_last().remove(i));
        lemma_beyond_remove(values.drop_last(), i, top, x);
    }
}

proof fn lemma_same_beyond(a: Seq<F64>, b: Seq<F64>, top: bool, x: F64)
    requires
        a.to_multiset() == b.to_multiset(),
    ensures
        beyond(a, top, x) == beyond(b, top, x),
    decreases a.len(),
{
    a.to_multiset_ensures();
    b.to_multiset_ensures();
    assert(a.len() == b.len());
    if a.len() > 0 {
        let v = a.last();
        assert(a.contains(v)) by {
            assert(a[a.len() - 1] == v);
        }
        assert(b.to_multiset().count(v) > 0);
        let i = choose|i: int| 0 <= i < b.len() && b[i] == v;
        let n = a.len() - 1;
        assert(a.remove(n).to_multiset() =~= b.remove(i).to_multiset()) by {
            assert(a.remove(n).to_multiset() =~= a.to_multiset().remove(v));
            assert(b.remove(i).to_multiset() =~= b.to_multiset().remove(v));
        }
        lemma_same_beyond(a.remove(n), b.remove(i), top, x);
        lemma_beyond_remove(a, n, top, x);
        lemma_beyond_remove(b, i, top, x);
    }
}

/// When from `from` on everything stands beyond `x` and before it nothing does, so
/// many stand beyond it.
proof fn lemma_beyond_from(r: Seq<F64>, x: F64, from: int)
    requires
        0 <= from <= r.len(),
    ensures
        (forall|i: int| 0 <= i < from ==> (#[trigger] r[i]).rank() <= x.rank()) ==> beyond(
            r,
            true,
            x,
        ) <= r.len() - from,
        (forall|i: int| from <= i < r.len() ==> (#[trigger] r[i]).rank() > x.rank()) ==> beyond(
            r,
            true,
            x,
        ) >= r.len() - from,
    decreases r.len(),
{
    if r.len() > 0 {
        let d = r.drop_last();
        assert forall|i: int| 0 <= i < d.len() implies d[i] == r[i] by {}
        if from < r.len() {
            lemma_beyond_from(d, x, from);
            if forall|i: int| 0 <= i < from ==> (#[trigger] r[i]).rank() <= x.rank() {
                assert(forall|i: int| 0 <= i < from ==> (#[trigger] d[i]).rank() <= x.rank());
            }
            if forall|i: int| from <= i < r.len() ==> (#[trigger] r[i]).rank() > x.rank() {
                assert(forall|i: int|
                    from <= i < d.len() ==> (#[trigger] d[i]).rank() > x.rank());
                assert(r[r.len() - 1].rank() > x.rank());
            }
        } else {
            lemma_beyond_from(d, x, d.len() as int);
            if forall|i: int| 0 <= i < from ==> (#[trigger] r[i]).rank() <= x.rank() {
                assert(forall|i: int|
                    0 <= i < d.len() ==> (#[trigger] d[i]).rank() <= x.rank());
                assert(r[r.len() - 1].rank() <= x.rank());
            }
        }
    }
}

proof fn lemma_beyond_upto(r: Seq<F64>, x: F64, upto: int)
    requires
        0 <= upto <= r.len(),
    ensures
        (forall|i: int| upto <= i < r.len() ==> (#[trigger] r[i]).rank() >= x.rank()) ==> beyond(
            r,
            false,
            x,
        ) <= upto,
        (forall|i: int| 0 <= i < upto ==> (#[trigger] r[i]).rank() < x.rank()) ==> beyond(
            r,
            false,
            x,
        ) >= upto,
    decreases r.len(),
{
    if r.len() > 0 {
        let d = r.drop_last();
        assert forall|i: int| 0 <= i < d.len() implies d[i] == r[i] by {}
        if upto < r.len() {
            lemma_beyond_upto(d, x, upto);
            if forall|i: int| upto <= i < r.len() ==> (#[trigger] r[i]).rank() >= x.rank() {
                assert(forall|i: int|
                    upto <= i < d.len() ==> (#[trigger] d[i]).rank() >= x.rank());
                assert(r[r.len() - 1].rank() >= x.rank());
            }
            if forall|i: int| 0 <= i < upto ==> (#[trigger] r[i]).rank() < x.rank() {
                assert(forall|i: int| 0 <= i < upto ==> (#[trigger] d[i]).rank() < x.rank());
            }
        } else {
            lemma_beyond_upto(d, x, d.len() as int);
            if forall|i: int| 0 <= i < upto ==> (#[trigger] r[i]).rank() < x.rank() {
                assert(forall|i: int|
                    0 <= i < d.len() ==> (#[trigger] d[i]).rank() < x.rank());
                assert(r[r.len() - 1].rank() < x.rank());
            }
        }
    }
}

proof fn lemma_place_and_rank(a: F64, b: F64)
    requires
        total_place(a) <= total_place(b),
        !a.nan_spec(),
        !b.nan_spec(),
    ensures
        a.rank() <= b.rank(),
{
}

proof fn lemma_ranks_ascend(r: Seq<F64>)
    requires
        forall|i: int, j: int|
            0 <= i < j < r.len() ==> total_place(#[trigger] r[i]) <= total_place(#[trigger] r[j]),
        forall|i: int| 0 <= i < r.len() ==> !(#[trigger] r[i]).nan_spec(),
    ensures
        forall|i: int, j: int|
            0 <= i <= j < r.len() ==> (#[trigger] r[i]).rank() <= (#[trigger] r[j]).rank(),
{
    assert forall|i: int, j: int| 0 <= i <= j < r.len() implies (#[trigger] r[i]).rank() <= (
    #[trigger] r[j]).rank() by {
        if i < j {
            lemma_place_and_rank(r[i], r[j]);
        }
    }
}

proof fn lemma_beyond_top(r: Seq<F64>, index: int, x: F64, k: int)
    requires
        forall|i: int, j: int|
            0 <= i < j < r.len() ==> total_place(#[trigger] r[i]) <= total_place(#[trigger] r[j]),
        forall|i: int| 0 <= i < r.len() ==> !(#[trigger] r[i]).nan_spec(),
        0 <= index < r.len(),
        0 <= k < r.len() && r[k] == x,
    ensures
        CmpOp::Ge.holds_spec(x, r[index]) ==> beyond(r, true, x) < r.len() - index,
        !CmpOp::Ge.holds_spec(x, r[index]) ==> beyond(r, true, x) >= r.len() - index && index > 0,
{
    lemma_ranks_ascend(r);
    assert(!r[k].nan_spec() && !r[index].nan_spec());
    if CmpOp::Ge.holds_spec(x, r[index]) {
        assert forall|i: int| 0 <= i < index + 1 implies (#[trigger] r[i]).rank() <= x.rank() by {
            assert(r[i].rank() <= r[index].rank());
        }
        lemma_beyond_from(r, x, index + 1);
    } else {
        assert forall|i: int| index <= i < r.len() implies (#[trigger] r[i]).rank() > x.rank() by {
            assert(r[index].rank() <= r[i].rank());
        }
        lemma_beyond_from(r, x, index);
        if index == 0 {
            assert(r[0].rank() <= r[k].rank());
        }
    }
}

proof fn lemma_beyond_bottom(r: Seq<F64>, index: int, x: F64, k: int)
    requires
        forall|i: int, j: int|
            0 <= i < j < r.len() ==> total_place(#[trigger] r[i]) <= total_place(#[trigger] r[j]),
        forall|i: int| 0 <= i < r.len() ==> !(#[trigger] r[i]).nan_spec(),
        0 <= index < r.len(),
        0 <= k < r.len() && r[k] == x,
    ensures
        CmpOp::Le.holds_spec(x, r[index]) ==> beyond(r, false, x) <= index,
        !CmpOp::Le.holds_spec(x, r[index]) ==> beyond(r, false, x) > index && index < r.len() - 1,
{
    lemma_ranks_ascend(r);
    assert(!r[k].nan_spec() && !r[index].nan_spec());
    if CmpOp::Le.holds_spec(x, r[index]) {
        assert forall|i: int| index <= i < r.len() implies (#[trigger] r[i]).rank() >= x.rank() by {
            assert(r[index].rank() <= r[i].rank());
        }
        lemma_beyond_upto(r, x, index);
    } else {
        assert forall|i: int| 0 <= i < index + 1 implies (#[trigger] r[i]).rank() < x.rank() by {
            assert(r[i].rank() <= r[index].rank());
        }
        lemma_beyond_upto(r, x, index + 1);
        if index == r.len() - 1 {
            assert(r[k].rank() <= r[index].rank());
        }
    }
}

impl<C: Fn(Rgb, Rgb, F64, F64, F64) -> Rgb, B: Fn(F64, F64, F64) -> F64> Painter<C, B> {
    /// A rule that does not scale does not care for the extent of its column; one that
    /// does leaves a cell alone where there is none.
    pub proof fn only_what_scales_asks_for_the_extent(
        &self,
        rule: ConditionalRule,
        value: Value,
        display: Seq<char>,
        cut: Option<F64>,
        a: Option<(F64, F64)>,
        b: Option<(F64, F64)>,
        s: CellStyle,
        t: CellStyle,
    )
        ensures
            !rule.scales() ==> self.applied(
                rule,
                value,
                display,
                RuleEval { extent: a, cut },
                s,
                t,
            ) == self.applied(rule, value, display, RuleEval { extent: b, cut }, s, t),
            rule.scales() ==> (self.applied(
                rule,
                value,
                display,
                RuleEval { extent: None, cut },
                s,
                t,
            ) <==> t == s),
    {
    }
}

} // verus!
