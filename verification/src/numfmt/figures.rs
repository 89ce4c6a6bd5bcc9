//! How figures are laid out, and which section of a code a value goes through.

use crate::interchange::escapes::lemma_decimal;
use crate::interchange::looks::{lemma_literal, numeric};
use crate::interchange::scan::{lacks, lemma_char_found};
use crate::interchange::styles::lemma_snug;
use crate::numfmt::{
    applied, condition_of, conditional, first_taking, grouped_digits, inside_after, needs_sign,
    repeated, section_index, sections_from, sections_of, stepped, takes, text_parts,
    without_minus, without_zeros, CmpOp, FmtColor, Inside, NumFmt, NumSpec, NumberOps, PartView,
    SectionView,
};
use crate::numfmt::DateParts;
use crate::text::{ascii_lowered, decimal, digit, float_literal, has_at, trimmed, whitespace};
use crate::value::F64;
use vstd::arithmetic::power::pow;
use vstd::prelude::*;

verus! {

// ----------------------------------------------------------------- layout --

/// Groups are of three from the right: of a grouped figure every fourth character from
/// its end is a comma, and no other.
pub proof fn groups_are_of_three(s: Seq<char>, k: int)
    requires
        lacks(s, ','),
        0 <= k < grouped_digits(s).len(),
    ensures
        grouped_digits(s)[grouped_digits(s).len() - 1 - k] == ',' <==> k % 4 == 3,
    decreases s.len(),
{
    let g = grouped_digits(s);
    if s.len() > 3 {
        let front = s.subrange(0, s.len() - 3);
        let back = s.subrange(s.len() - 3, s.len() as int);
        assert(g =~= grouped_digits(front) + seq![','] + back);
        if k >= 4 {
            assert(lacks(front, ','));
            groups_are_of_three(front, k - 4);
            assert(g[g.len() - 1 - k] == grouped_digits(front)[grouped_digits(front).len() - 1 - (k
                - 4)]);
        } else if k < 3 {
            assert(g[g.len() - 1 - k] == back[2 - k]);
            assert(back[2 - k] == s[s.len() - 1 - k]);
        }
    } else {
        assert(g == s);
    }
}

proof fn lemma_trailing(s: Seq<char>, keep: nat, m: nat)
    requires
        m <= s.len(),
        forall|j: int| m <= j < s.len() ==> s[j] == '0',
        m >= keep || m == s.len(),
        m > keep ==> s[m - 1] != '0',
    ensures
        without_zeros(s, keep) == s.subrange(0, m as int),
    decreases s.len(),
{
    if s.len() > m {
        let rest = s.drop_last();
        assert(s.last() == s[s.len() - 1]);
        lemma_trailing(rest, keep, m);
        assert(rest.subrange(0, m as int) =~= s.subrange(0, m as int));
    } else {
        assert(s.subrange(0, m as int) =~= s);
        if s.len() > keep {
            assert(s.last() == s[m - 1]);
        }
    }
}

/// A figure with decimals is shown with `m` of them: no digit but zeros is dropped, never
/// so many that fewer than the least are left, and no zero beyond the least is kept. The
/// digits before the point are filled with zeros up to their least number, and a lone zero
/// is dropped where none is asked for.
pub proof fn decimals_are_cut_to_what_is_needed(
    spec: NumSpec,
    whole: Seq<char>,
    dec: Seq<char>,
    m: nat,
)
    requires
        whole.len() > 0,
        forall|i: int| 0 <= i < whole.len() ==> digit(#[trigger] whole[i]),
        !spec.grouped,
        m <= dec.len(),
        forall|j: int| m <= j < dec.len() ==> dec[j] == '0',
        m >= spec.dec_zeros || m == dec.len(),
        m > spec.dec_zeros ==> dec[m - 1] != '0',
    ensures
        ({
            let ints = if whole.len() < spec.int_zeros {
                repeated('0', (spec.int_zeros - whole.len()) as nat) + whole
            } else if whole == seq!['0'] && spec.int_zeros == 0 {
                Seq::empty()
            } else {
                whole
            };
            let shown = spec.layout_spec(whole + seq!['.'] + dec);
            if m == 0 {
                shown == ints
            } else {
                shown == ints + seq!['.'] + dec.subrange(0, m as int)
            }
        }),
{
    let s = whole + seq!['.'] + dec;
    let back = seq!['.'] + dec;
    assert(s =~= whole + back);
    assert forall|k: int| 0 <= k < whole.len() implies whole[k] != '.' by {
        assert(digit(whole[k]));
    }
    lemma_char_found(whole, back, '.', 0);
    assert(s.subrange(0, whole.len() as int) =~= whole);
    assert(s.subrange(whole.len() as int + 1, s.len() as int) =~= dec);
    assert(digit(whole[0]));
    assert(without_minus(whole) == whole);
    lemma_trailing(dec, spec.dec_zeros as nat, m);
}

/// Every percent sign multiplies by a hundred and every comma behind divides by a
/// thousand, where that is exact.
pub proof fn percents_and_commas_scale<
    T: Fn(F64, F64) -> F64,
    D: Fn(F64, F64) -> F64,
    R: Fn(F64, usize) -> String,
    X: Fn(F64) -> i32,
    M: Fn(F64, i32, usize) -> String,
    P: Fn(F64) -> String,
    C: Fn(F64) -> DateParts,
>(
    ops: NumberOps<T, D, R, X, M, P, C>,
    val: spec_fn(F64) -> int,
    spec: NumSpec,
    v: F64,
    scaled: F64,
)
    requires
        // The bits of a hundred and of a thousand.
        forall|x: F64, r: F64| #[trigger]
            ops.times.ensures((x, F64(0x4059_0000_0000_0000)), r) ==> val(r) == val(x) * 100,
        forall|x: F64, r: F64| #[trigger]
            ops.over.ensures((x, F64(0x408f_4000_0000_0000)), r) ==> val(r) * 1000 == val(x),
        ops.scaled(spec, v, scaled),
    ensures
        val(scaled) * pow(1000, spec.scale_commas as nat) == val(v) * pow(
            100,
            spec.percents as nat,
        ),
{
    let up = choose|up: F64|
        {
            &&& #[trigger] applied(
                ops.times,
                F64(0x4059_0000_0000_0000),
                spec.percents as nat,
                v,
                up,
            )
            &&& applied(
                ops.over,
                F64(0x408f_4000_0000_0000),
                spec.scale_commas as nat,
                up,
                scaled,
            )
        };
    let a = choose|steps: Seq<F64>| #[trigger]
        stepped(ops.times, F64(0x4059_0000_0000_0000), spec.percents as nat, v, steps)
            && steps.last() == up;
    let b = choose|steps: Seq<F64>| #[trigger]
        stepped(ops.over, F64(0x408f_4000_0000_0000), spec.scale_commas as nat, up, steps)
            && steps.last() == scaled;
    lemma_up(ops.times, val, a, v, spec.percents as nat, spec.percents as nat);
    lemma_down(ops.over, val, b, up, spec.scale_commas as nat, spec.scale_commas as nat);
}

proof fn lemma_up<F: Fn(F64, F64) -> F64>(
    f: F,
    val: spec_fn(F64) -> int,
    steps: Seq<F64>,
    v: F64,
    n: nat,
    k: nat,
)
    requires
        stepped(f, F64(0x4059_0000_0000_0000), n, v, steps),
        forall|x: F64, r: F64| #[trigger]
            f.ensures((x, F64(0x4059_0000_0000_0000)), r) ==> val(r) == val(x) * 100,
        k <= n,
    ensures
        val(steps[k as int]) == val(v) * pow(100, k),
    decreases k,
{
    reveal(pow);
    if k > 0 {
        lemma_up(f, val, steps, v, n, (k - 1) as nat);
        let x = steps[k - 1];
        assert(f.ensures((steps[k - 1], F64(0x4059_0000_0000_0000)), steps[k - 1 + 1]));
        let p = pow(100, (k - 1) as nat);
        assert(val(v) * p * 100 == val(v) * (100 * p)) by (nonlinear_arith);
    }
}

proof fn lemma_down<F: Fn(F64, F64) -> F64>(
    f: F,
    val: spec_fn(F64) -> int,
    steps: Seq<F64>,
    v: F64,
    n: nat,
    k: nat,
)
    requires
        stepped(f, F64(0x408f_4000_0000_0000), n, v, steps),
        forall|x: F64, r: F64| #[trigger]
            f.ensures((x, F64(0x408f_4000_0000_0000)), r) ==> val(r) * 1000 == val(x),
        k <= n,
    ensures
        val(steps[k as int]) * pow(1000, k) == val(v),
    decreases k,
{
    reveal(pow);
    if k > 0 {
        lemma_down(f, val, steps, v, n, (k - 1) as nat);
        assert(f.ensures((steps[k - 1], F64(0x408f_4000_0000_0000)), steps[k - 1 + 1]));
        let p = pow(1000, (k - 1) as nat);
        let y = val(steps[k as int]);
        assert(y * (1000 * p) == (y * 1000) * p) by (nonlinear_arith);
    }
}

/// A power of ten shows its sign, and its digits filled with zeros.
pub proof fn a_power_of_ten_shows_its_sign(mantissa: Seq<char>, exp: int, digits: nat)
    ensures
        ({
            let shown = NumSpec::scientific_spec(mantissa, exp, digits);
            let n = decimal(
                (if exp < 0 {
                    -exp
                } else {
                    exp
                }) as nat,
            );
            &&& shown.len() == mantissa.len() + 2 + if n.len() < digits {
                digits
            } else {
                n.len()
            }
            &&& shown.subrange(0, mantissa.len() as int) == mantissa
            &&& shown[mantissa.len() as int] == 'E'
            &&& shown[mantissa.len() as int + 1] == if exp < 0 {
                '-'
            } else {
                '+'
            }
            &&& shown.subrange(shown.len() - n.len(), shown.len() as int) == n
            &&& forall|i: int|
                mantissa.len() + 2 <= i < shown.len() - n.len() ==> shown[i] == '0'
        }),
{
    let shown = NumSpec::scientific_spec(mantissa, exp, digits);
    let n = decimal(
        (if exp < 0 {
            -exp
        } else {
            exp
        }) as nat,
    );
    assert(shown.subrange(0, mantissa.len() as int) =~= mantissa);
    assert(shown.subrange(shown.len() - n.len(), shown.len() as int) =~= n);
}

// --------------------------------------------------------------- sections --

/// Without conditions the sections are for positive numbers, for negative ones and for
/// zero. Zero goes with the positive ones where it has none of its own, and so does a
/// negative number.
pub proof fn sections_are_chosen_by_sign(sections: Seq<SectionView>, v: F64, limits: Seq<F64>)
    requires
        sections.len() > 0,
        forall|i: int| 0 <= i < sections.len() ==> (#[trigger] sections[i]).condition is None,
        !v.nan_spec(),
    ensures
        v.rank() > 0 ==> section_index(sections, v, limits) == 0,
        v.rank() < 0 && sections.len() == 1 ==> section_index(sections, v, limits) == 0,
        v.rank() < 0 && sections.len() >= 2 ==> section_index(sections, v, limits) == 1,
        v.rank() == 0 && sections.len() < 3 ==> section_index(sections, v, limits) == 0,
        v.rank() == 0 && sections.len() >= 3 ==> section_index(sections, v, limits) == 2,
{
    assert(!conditional(sections));
}

/// A minus is added for a negative number exactly where there is one section for all: a
/// section of its own spells the sign itself.
pub proof fn a_minus_is_added_where_one_section_serves_all(
    sections: Seq<SectionView>,
    v: F64,
    limits: Seq<F64>,
)
    requires
        sections.len() > 0,
        forall|i: int| 0 <= i < sections.len() ==> (#[trigger] sections[i]).condition is None,
        !v.nan_spec(),
    ensures
        needs_sign(sections, v, limits) <==> v.rank() < 0 && sections.len() == 1,
{
    assert(!conditional(sections));
}

proof fn lemma_first(sections: Seq<SectionView>, v: F64, limits: Seq<F64>, i: int)
    requires
        0 <= i < sections.len(),
    ensures
        i <= first_taking(sections, v, limits, i) < sections.len(),
        forall|j: int|
            i <= j < first_taking(sections, v, limits, i) ==> !takes(
                #[trigger] sections[j],
                v,
                limits[j],
            ),
        first_taking(sections, v, limits, i) < sections.len() - 1 ==> takes(
            sections[first_taking(sections, v, limits, i)],
            v,
            limits[first_taking(sections, v, limits, i)],
        ),
    decreases sections.len() - i,
{
    if !(i >= sections.len() - 1 || takes(sections[i], v, limits[i])) {
        lemma_first(sections, v, limits, i + 1);
    }
}

/// With conditions the first section whose condition holds is taken, one without a
/// condition holding for all, and the last where none does.
pub proof fn the_first_condition_that_holds_wins(
    sections: Seq<SectionView>,
    v: F64,
    limits: Seq<F64>,
    k: int,
)
    requires
        0 <= k < sections.len(),
        sections[k].condition is Some,
        limits.len() == sections.len(),
    ensures
        ({
            let i = section_index(sections, v, limits);
            &&& 0 <= i < sections.len()
            &&& forall|j: int|
                0 <= j < i ==> match (#[trigger] sections[j]).condition {
                    Some(c) => !c.0.holds_spec(v, limits[j]),
                    None => false,
                }
            &&& i < sections.len() - 1 ==> match sections[i].condition {
                Some(c) => c.0.holds_spec(v, limits[i]),
                None => true,
            }
        }),
{
    assert(conditional(sections)) by {
        assert(sections[k].condition is Some);
    }
    lemma_first(sections, v, limits, 0);
    let i = section_index(sections, v, limits);
    assert forall|j: int| 0 <= j < i implies match (#[trigger] sections[j]).condition {
        Some(c) => !c.0.holds_spec(v, limits[j]),
        None => false,
    } by {
        assert(!takes(sections[j], v, limits[j]));
    }
}

/// The six comparisons are those of the number line.
pub proof fn comparisons_are_those_of_the_number_line(v: F64, limit: F64)
    requires
        !v.nan_spec(),
        !limit.nan_spec(),
    ensures
        CmpOp::Lt.holds_spec(v, limit) <==> v.rank() < limit.rank(),
        CmpOp::Le.holds_spec(v, limit) <==> v.rank() <= limit.rank(),
        CmpOp::Gt.holds_spec(v, limit) <==> v.rank() > limit.rank(),
        CmpOp::Ge.holds_spec(v, limit) <==> v.rank() >= limit.rank(),
        CmpOp::Eq.holds_spec(v, limit) <==> v.rank() == limit.rank(),
        CmpOp::Ne.holds_spec(v, limit) <==> v.rank() != limit.rank(),
{
}

proof fn lemma_operator(op: Seq<char>, num: Seq<char>, word: Seq<char>)
    requires
        0 < op.len() <= 2,
        0 < word.len() <= 2,
        num.len() > 0,
        num[0] != '=' && num[0] != '>' && num[0] != '<',
        word.last() == '=' || word.last() == '>' || word.last() == '<',
    ensures
        has_at(op + num, 0, word) <==> word.len() <= op.len() && op.subrange(
            0,
            word.len() as int,
        ) == word,
{
    let t = op + num;
    let w = word.len() as int;
    if w <= op.len() {
        assert(t.subrange(0, w) =~= op.subrange(0, w));
    } else {
        assert(t.subrange(0, w)[1] == num[0]);
        assert(word[1] == word.last());
    }
}

/// A condition is an operator and a number, and each of the six operators is its own.
pub proof fn a_condition_names_its_operator(num: Seq<char>)
    requires
        float_literal(num),
    ensures
        condition_of(">="@ + num) == Some((CmpOp::Ge, num)),
        condition_of("<="@ + num) == Some((CmpOp::Le, num)),
        condition_of("<>"@ + num) == Some((CmpOp::Ne, num)),
        condition_of(">"@ + num) == Some((CmpOp::Gt, num)),
        condition_of("<"@ + num) == Some((CmpOp::Lt, num)),
        condition_of("="@ + num) == Some((CmpOp::Eq, num)),
{
    lemma_literal(num);
    assert(numeric(num[0]) && numeric(num[num.len() - 1]));
    assert(trimmed(num) == num);
    reveal_strlit(">=");
    reveal_strlit("<=");
    reveal_strlit("<>");
    reveal_strlit(">");
    reveal_strlit("<");
    reveal_strlit("=");
    assert(">="@[0] == '>' && "<="@[0] == '<' && "<="@[1] == '=' && "<>"@[0] == '<' && "<>"@[1]
        == '>');
    assert(">"@[0] == '>' && "<"@[0] == '<' && "="@[0] == '=');
    lemma_condition(">="@, num);
    lemma_condition("<="@, num);
    lemma_condition("<>"@, num);
    lemma_condition(">"@, num);
    lemma_condition("<"@, num);
    lemma_condition("="@, num);
}

proof fn lemma_condition(op: Seq<char>, num: Seq<char>)
    requires
        op == ">="@ || op == "<="@ || op == "<>"@ || op == ">"@ || op == "<"@ || op == "="@,
        float_literal(num),
        num.len() > 0,
        numeric(num[0]),
        trimmed(num) == num,
    ensures
        condition_of(op + num) == Some(
            (
                if op == ">="@ {
                    CmpOp::Ge
                } else if op == "<="@ {
                    CmpOp::Le
                } else if op == "<>"@ {
                    CmpOp::Ne
                } else if op == ">"@ {
                    CmpOp::Gt
                } else if op == "<"@ {
                    CmpOp::Lt
                } else {
                    CmpOp::Eq
                },
                num,
            ),
        ),
{
    reveal_strlit(">=");
    reveal_strlit("<=");
    reveal_strlit("<>");
    reveal_strlit(">");
    reveal_strlit("<");
    reveal_strlit("=");
    let t = op + num;
    assert(">="@[0] == '>' && ">="@[1] == '=' && "<="@[0] == '<' && "<="@[1] == '=');
    assert("<>"@[0] == '<' && "<>"@[1] == '>' && ">"@[0] == '>' && "<"@[0] == '<' && "="@[0] == '=');
    lemma_operator(op, num, ">="@);
    lemma_operator(op, num, "<="@);
    lemma_operator(op, num, "<>"@);
    lemma_operator(op, num, ">"@);
    lemma_operator(op, num, "<"@);
    lemma_operator(op, num, "="@);
    assert(op.subrange(0, op.len() as int) =~= op);
    assert(t.subrange(op.len() as int, t.len() as int) =~= num);
    if op.len() == 2 {
        assert(op.subrange(0, 1)[0] == op[0]);
    }
}

/// A colour is named in either case of its letters, and each name is its own colour.
pub proof fn a_colour_is_called_by_its_name(s: Seq<char>)
    ensures
        ascii_lowered(s) == "black"@ ==> FmtColor::named(s) == Some(FmtColor::Black),
        ascii_lowered(s) == "blue"@ ==> FmtColor::named(s) == Some(FmtColor::Blue),
        ascii_lowered(s) == "cyan"@ ==> FmtColor::named(s) == Some(FmtColor::Cyan),
        ascii_lowered(s) == "green"@ ==> FmtColor::named(s) == Some(FmtColor::Green),
        ascii_lowered(s) == "magenta"@ ==> FmtColor::named(s) == Some(FmtColor::Magenta),
        ascii_lowered(s) == "red"@ ==> FmtColor::named(s) == Some(FmtColor::Red),
        ascii_lowered(s) == "white"@ ==> FmtColor::named(s) == Some(FmtColor::White),
        ascii_lowered(s) == "yellow"@ ==> FmtColor::named(s) == Some(FmtColor::Yellow),
{
    reveal_strlit("black");
    reveal_strlit("blue");
    reveal_strlit("cyan");
    reveal_strlit("green");
    reveal_strlit("magenta");
    reveal_strlit("red");
    reveal_strlit("white");
    reveal_strlit("yellow");
    assert("black"@[0] == 'b' && "black"@[1] == 'l' && "black"@.len() == 5);
    assert("green"@[0] == 'g' && "white"@[0] == 'w' && "blue"@.len() == 4 && "cyan"@[0] == 'c');
    assert("blue"@[0] == 'b');
}

/// A colour of the old palette is told by its number, one to eight; every other number is
/// black.
pub proof fn a_palette_colour_is_told_by_its_number(n: nat, spaced: bool)
    requires
        n <= 255,
    ensures
        FmtColor::named(
            "color"@ + (if spaced {
                seq![' ']
            } else {
                Seq::empty()
            }) + decimal(n),
        ) == Some(
            if 1 <= n <= 8 {
                seq![
                    FmtColor::Black,
                    FmtColor::White,
                    FmtColor::Red,
                    FmtColor::Green,
                    FmtColor::Blue,
                    FmtColor::Yellow,
                    FmtColor::Magenta,
                    FmtColor::Cyan,
                ][n - 1]
            } else {
                FmtColor::Black
            },
        ),
{
    let blank = if spaced {
        seq![' ']
    } else {
        Seq::empty()
    };
    let d = decimal(n);
    let s = "color"@ + blank + d;
    reveal_strlit("color");
    reveal_strlit("black");
    reveal_strlit("blue");
    reveal_strlit("cyan");
    reveal_strlit("green");
    reveal_strlit("magenta");
    reveal_strlit("red");
    reveal_strlit("white");
    reveal_strlit("yellow");
    lemma_decimal(n);
    assert forall|i: int| 0 <= i < d.len() implies digit(#[trigger] d[i]) by {}
    assert forall|i: int| 0 <= i < s.len() implies !('A' <= #[trigger] s[i] <= 'Z') by {
        if i >= 5 + blank.len() {
            assert(s[i] == d[i - 5 - blank.len()]);
        }
    }
    assert(ascii_lowered(s) =~= s);
    assert(s[0] == 'c' && s[1] == 'o');
    assert("cyan"@[1] == 'y');
    assert(s.subrange(0, 5) =~= "color"@);
    let tail = s.subrange(5, s.len() as int);
    assert(tail =~= blank + d);
    assert(digit(d[0]) && digit(d[d.len() - 1]));
    assert(trimmed(tail) == d) by {
        if spaced {
            assert(tail.subrange(1, tail.len() as int) =~= d);
            assert(whitespace(tail[0]));
            lemma_snug(d);
        } else {
            assert(tail =~= d);
            lemma_snug(d);
        }
    }
}

/// Text goes through the fourth section, whose slot it fills, and through no other.
pub proof fn text_fills_the_slot_of_the_fourth_section(
    sections: Seq<SectionView>,
    before: Seq<char>,
    after: Seq<char>,
    s: Seq<char>,
)
    ensures
        sections.len() <= 3 ==> NumFmt::text_spec(sections, s) == s,
        sections.len() > 3 && sections[3].parts == seq![
            PartView::Literal(before),
            PartView::TextSlot,
            PartView::Literal(after),
        ] ==> NumFmt::text_spec(sections, s) == before + s + after,
{
    let parts = seq![PartView::Literal(before), PartView::TextSlot, PartView::Literal(after)];
    let two = seq![PartView::Literal(before), PartView::TextSlot];
    let one = seq![PartView::Literal(before)];
    assert(parts.drop_last() =~= two);
    assert(two.drop_last() =~= one);
    assert(one.drop_last() =~= Seq::<PartView>::empty());
    assert(text_parts(one.drop_last(), s) == Seq::<char>::empty());
    assert(text_parts(one, s) =~= before);
    assert(text_parts(two, s) =~= before + s);
    assert(text_parts(parts, s) =~= before + s + after);
    if (before + s + after).len() == 0 {
        assert(before + s + after =~= s);
    }
}

/// Characters that a section break is not looked for behind.
pub open spec fn unguarded(s: Seq<char>) -> bool {
    lacks(s, ';') && lacks(s, '"') && lacks(s, '[') && lacks(s, ']') && lacks(s, '\\')
}

proof fn lemma_plain_section(code: Seq<char>, i: int, to: int, cur: Seq<char>, at: Inside)
    requires
        0 <= i <= to <= code.len(),
        unguarded(code.subrange(i, to)),
    ensures
        sections_from(code, i, at, cur) == sections_from(code, to, at, cur + code.subrange(i, to)),
    decreases to - i,
{
    if i < to {
        let s = code.subrange(i, to);
        assert(s[0] == code[i]);
        let rest = code.subrange(i + 1, to);
        assert forall|k: int| 0 <= k < rest.len() implies rest[k] == s[k + 1] by {}
        assert(unguarded(rest));
        assert(inside_after(at, code[i]) == at);
        lemma_plain_section(code, i + 1, to, cur.push(code[i]), at);
        assert(cur.push(code[i]) + rest =~= cur + s);
    } else {
        assert(cur + code.subrange(i, to) =~= cur);
    }
}

proof fn lemma_sections_shift(a: Seq<char>, b: Seq<char>, i: int, at: Inside, cur: Seq<char>)
    requires
        0 <= i <= b.len(),
    ensures
        sections_from(a + b, a.len() + i, at, cur) == sections_from(b, i, at, cur),
    decreases b.len() - i,
{
    let s = a + b;
    if i < b.len() {
        assert(s[a.len() + i] == b[i]);
        let c = b[i];
        if c == '\\' {
            if i + 1 < b.len() {
                assert(s[a.len() + i + 1] == b[i + 1]);
                lemma_sections_shift(a, b, i + 2, at, cur.push(c).push(b[i + 1]));
            } else {
                lemma_sections_shift(a, b, i + 1, at, cur.push(c));
            }
        } else if c == ';' && !at.quote && !at.bracket {
            lemma_sections_shift(a, b, i + 1, at, Seq::empty());
        } else {
            lemma_sections_shift(a, b, i + 1, inside_after(at, c), cur.push(c));
        }
    }
}

/// A semicolon outside quotes, brackets and escapes ends a section, and quoted it does
/// not.
pub proof fn a_semicolon_ends_a_section(a: Seq<char>, quoted: Seq<char>, rest: Seq<char>)
    requires
        unguarded(a),
        lacks(quoted, '"'),
        lacks(quoted, '\\'),
    ensures
        sections_of(a + seq![';'] + rest) == seq![a] + sections_of(rest),
        sections_of(a) == seq![a],
        sections_of(seq!['"'] + quoted + seq!['"'] + seq![';'] + rest) == seq![
            seq!['"'] + quoted + seq!['"'],
        ] + sections_of(rest),
{
    let none = Inside { quote: false, bracket: false };
    let code = a + seq![';'] + rest;
    let n = a.len() as int;
    assert(code.subrange(0, n) =~= a);
    lemma_plain_section(code, 0, n, Seq::empty(), none);
    assert(Seq::<char>::empty() + a =~= a);
    assert(code =~= (a + seq![';']) + rest);
    lemma_sections_shift(a + seq![';'], rest, 0, none, Seq::empty());
    assert(a.subrange(0, n) =~= a);
    lemma_plain_section(a, 0, n, Seq::empty(), none);
    let q = seq!['"'] + quoted + seq!['"'];
    let other = q + seq![';'] + rest;
    let m = quoted.len() as int;
    assert(other[0] == '"');
    let inside = Inside { quote: true, bracket: false };
    lemma_quoted_section(other, 1, m + 1, seq!['"']);
    assert(other.subrange(1, m + 1) =~= quoted);
    assert(Seq::<char>::empty().push('"') =~= seq!['"']);
    assert(sections_of(other) == sections_from(other, 1, inside, seq!['"']));
    assert(other[m + 1] == '"');
    assert((seq!['"'] + quoted).push('"') =~= q);
    assert(sections_from(other, m + 1, inside, seq!['"'] + quoted) == sections_from(
        other,
        m + 2,
        none,
        q,
    ));
    assert(other[m + 2] == ';');
    assert(other =~= (q + seq![';']) + rest);
    lemma_sections_shift(q + seq![';'], rest, 0, none, Seq::empty());
    assert(sections_from(other, m + 2, none, q) == seq![q] + sections_from(
        other,
        m + 3,
        none,
        Seq::empty(),
    ));
}

proof fn lemma_quoted_section(code: Seq<char>, i: int, to: int, cur: Seq<char>)
    requires
        0 <= i <= to <= code.len(),
        lacks(code.subrange(i, to), '"'),
        lacks(code.subrange(i, to), '\\'),
    ensures
        sections_from(code, i, (Inside { quote: true, bracket: false }), cur) == sections_from(
            code,
            to,
            Inside { quote: true, bracket: false },
            cur + code.subrange(i, to),
        ),
    decreases to - i,
{
    if i < to {
        let s = code.subrange(i, to);
        assert(s[0] == code[i]);
        let rest = code.subrange(i + 1, to);
        assert forall|k: int| 0 <= k < rest.len() implies rest[k] == s[k + 1] by {}
        lemma_quoted_section(code, i + 1, to, cur.push(code[i]));
        assert(cur.push(code[i]) + rest =~= cur + s);
    } else {
        assert(cur + code.subrange(i, to) =~= cur);
    }
}

} // verus!
