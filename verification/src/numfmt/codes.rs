//! What codes show: laws that go from the characters of a code to the characters on the
//! screen.

use crate::interchange::styles::{lemma_snug, snug};
use crate::numfmt::{
    all_are, condition_of, date_token, dates_of, letter_run, lex, padded, part_text, parts_text,
    placeholder, placeholder_from, placeholder_run, repeated, resolved, section_of, settled,
    token_text, word_at, Computed, DraftView, DtToken, FmtColor, NumSpec, PartView, Tok,
};
use crate::text::{
    ascii_lower, ascii_lowered, ascii_upper, decimal, find_from, has_at, trimmed, whitespace,
};
use vstd::prelude::*;

verus! {

// -------------------------------------------------------------- date codes --

/// A field of a date code.
pub ghost enum Field {
    /// A letter so many times.
    Run(char, nat),
    /// The same in brackets.
    Elapsed(char, nat),
    /// The mark of the half of the day.
    Half,
}

/// How a field is written.
pub open spec fn spelled(f: Field) -> Seq<char> {
    match f {
        Field::Run(l, n) => repeated(l, n),
        Field::Elapsed(l, n) => seq!['['] + repeated(l, n) + seq![']'],
        Field::Half => "AM/PM"@,
    }
}

/// The letter of a run, small.
pub open spec fn letter(f: Field) -> char {
    match f {
        Field::Run(l, n) => ascii_lower(l),
        Field::Elapsed(l, n) => ascii_lower(l),
        Field::Half => 'a',
    }
}

pub open spec fn valid(f: Field) -> bool {
    match f {
        Field::Run(l, n) => n > 0 && (letter(f) == 'y' || letter(f) == 'm' || letter(f) == 'd'
            || letter(f) == 'h' || letter(f) == 's'),
        Field::Elapsed(l, n) => n > 0 && (letter(f) == 'h' || letter(f) == 'm' || letter(f) == 's'),
        Field::Half => true,
    }
}

/// What stands between two fields.
pub open spec fn separates(c: char) -> bool {
    c == ':' || c == '-' || c == ' ' || c == '/'
}

pub open spec fn separator(sep: Seq<char>) -> bool {
    sep.len() > 0 && forall|i: int| 0 <= i < sep.len() ==> separates(#[trigger] sep[i])
}

/// Pieces with `sep` between each two.
pub open spec fn strung(pieces: Seq<Seq<char>>, sep: Seq<char>) -> Seq<char>
    decreases pieces.len(),
{
    if pieces.len() == 0 {
        Seq::empty()
    } else if pieces.len() == 1 {
        pieces[0]
    } else {
        strung(pieces.drop_last(), sep) + sep + pieces.last()
    }
}

/// A date code: its fields with `sep` between each two.
pub open spec fn date_code(fields: Seq<Field>, sep: Seq<char>) -> Seq<char> {
    strung(Seq::new(fields.len(), |k: int| spelled(fields[k])), sep)
}

/// The token that a field is before its neighbours are looked at.
spec fn raw(f: Field) -> DtToken {
    match f {
        Field::Run(l, n) => date_token(letter(f), n as int),
        Field::Elapsed(l, n) => if letter(f) == 'h' {
            DtToken::ElapsedHour
        } else if letter(f) == 'm' {
            DtToken::ElapsedMinute
        } else {
            DtToken::ElapsedSecond
        },
        Field::Half => DtToken::AmPm,
    }
}

spec fn raws(fields: Seq<Field>) -> Seq<DtToken> {
    Seq::new(fields.len(), |k: int| raw(fields[k]))
}

/// The parts of a date code.
spec fn parts_of(dt: Seq<DtToken>, sep: Seq<char>) -> Seq<PartView>
    decreases dt.len(),
{
    if dt.len() == 0 {
        Seq::empty()
    } else if dt.len() == 1 {
        seq![PartView::DateTime(dt[0])]
    } else {
        parts_of(dt.drop_last(), sep).push(PartView::Literal(sep)).push(
            PartView::DateTime(dt.last()),
        )
    }
}

proof fn lemma_parts_of(dt: Seq<DtToken>, sep: Seq<char>)
    requires
        dt.len() > 0,
    ensures
        parts_of(dt, sep).len() == 2 * dt.len() - 1,
        forall|k: int|
            0 <= k < dt.len() ==> #[trigger] parts_of(dt, sep)[2 * k] == PartView::DateTime(dt[k]),
        forall|k: int|
            0 <= k < dt.len() - 1 ==> #[trigger] parts_of(dt, sep)[2 * k + 1] == PartView::Literal(
                sep,
            ),
        dates_of(parts_of(dt, sep)) == dt,
    decreases dt.len(),
{
    let all = parts_of(dt, sep);
    if dt.len() == 1 {
        assert(all.drop_last() =~= Seq::<PartView>::empty());
        assert(dates_of(all.drop_last()) == Seq::<DtToken>::empty());
        assert(dates_of(all) =~= dt);
    } else {
        let init = dt.drop_last();
        lemma_parts_of(init, sep);
        let p = parts_of(init, sep);
        let q = p.push(PartView::Literal(sep));
        assert(q.drop_last() =~= p);
        assert(all.drop_last() =~= q);
        assert(dates_of(q) == dates_of(p));
        assert(dates_of(all) =~= dt);
        assert forall|k: int| 0 <= k < dt.len() implies #[trigger] all[2 * k]
            == PartView::DateTime(dt[k]) by {
            if k < init.len() {
                assert(all[2 * k] == p[2 * k]);
                assert(init[k] == dt[k]);
            }
        }
        assert forall|k: int| 0 <= k < dt.len() - 1 implies #[trigger] all[2 * k + 1]
            == PartView::Literal(sep) by {
            if k < init.len() - 1 {
                assert(all[2 * k + 1] == p[2 * k + 1]);
            }
        }
    }
}

proof fn lemma_dates_before(dt: Seq<DtToken>, sep: Seq<char>, i: int)
    requires
        dt.len() > 0,
        0 <= i <= 2 * dt.len() - 1,
    ensures
        dates_of(parts_of(dt, sep).subrange(0, i)).len() == (i + 1) / 2,
    decreases i,
{
    lemma_parts_of(dt, sep);
    let all = parts_of(dt, sep);
    let s = all.subrange(0, i);
    if i > 0 {
        lemma_dates_before(dt, sep, i - 1);
        assert(s.drop_last() =~= all.subrange(0, i - 1));
        if i % 2 == 1 {
            let k = (i - 1) / 2;
            assert(all[2 * k] == PartView::DateTime(dt[k]));
            assert(s.last() == all[2 * k]);
        } else {
            let k = (i - 2) / 2;
            assert(all[2 * k + 1] == PartView::Literal(sep));
            assert(s.last() == all[2 * k + 1]);
        }
    }
}

proof fn lemma_settled(dt: Seq<DtToken>, sep: Seq<char>, spec: NumSpec, saw: bool)
    requires
        dt.len() > 0,
    ensures
        settled(parts_of(dt, sep), spec, saw) == parts_of(
            Seq::new(dt.len(), |k: int| resolved(dt, k)),
            sep,
        ),
{
    let all = parts_of(dt, sep);
    let fixed = Seq::new(dt.len(), |k: int| resolved(dt, k));
    let want = parts_of(fixed, sep);
    lemma_parts_of(dt, sep);
    lemma_parts_of(fixed, sep);
    let got = settled(all, spec, saw);
    assert forall|i: int| 0 <= i < all.len() implies got[i] == want[i] by {
        if i % 2 == 0 {
            let k = i / 2;
            lemma_dates_before(dt, sep, i);
            assert(all[2 * k] == PartView::DateTime(dt[k]));
            assert(want[2 * k] == PartView::DateTime(fixed[k]));
        } else {
            let k = i / 2;
            assert(all[2 * k + 1] == PartView::Literal(sep));
            assert(want[2 * k + 1] == PartView::Literal(sep));
        }
    }
    assert(got =~= want);
}

proof fn lemma_shown(dt: Seq<DtToken>, sep: Seq<char>, c: Computed, twelve: bool)
    ensures
        parts_text(parts_of(dt, sep), c, twelve) == strung(
            Seq::new(dt.len(), |k: int| token_text(dt[k], c.date, twelve)),
            sep,
        ),
    decreases dt.len(),
{
    let all = parts_of(dt, sep);
    let texts = Seq::new(dt.len(), |k: int| token_text(dt[k], c.date, twelve));
    if dt.len() == 0 {
    } else if dt.len() == 1 {
        assert(all.drop_last() =~= Seq::<PartView>::empty());
        assert(parts_text(all.drop_last(), c, twelve) == Seq::<char>::empty());
        assert(parts_text(all, c, twelve) =~= texts[0]);
    } else {
        let init = dt.drop_last();
        lemma_shown(init, sep, c, twelve);
        let p = parts_of(init, sep);
        let q = p.push(PartView::Literal(sep));
        assert(q.drop_last() =~= p);
        assert(all.drop_last() =~= q);
        assert(texts.drop_last() =~= Seq::new(
            init.len(),
            |k: int| token_text(init[k], c.date, twelve),
        ));
        assert(q.last() == PartView::Literal(sep));
        assert(parts_text(q, c, twelve) == parts_text(p, c, twelve) + sep);
        assert(all.last() == PartView::DateTime(dt.last()));
        assert(texts.last() == token_text(dt.last(), c.date, twelve));
        assert(parts_text(all, c, twelve) == parts_text(q, c, twelve) + texts.last());
        assert(strung(texts, sep) == strung(texts.drop_last(), sep) + sep + texts.last());
    }
}

// ----------------------------------------------------------------- reading --

proof fn lemma_letter_run(cs: Seq<char>, l: char, i: int, n: int)
    requires
        0 <= i,
        0 <= n,
        i + n <= cs.len(),
        forall|k: int| i <= k < i + n ==> ascii_lower(#[trigger] cs[k]) == l,
        i + n < cs.len() ==> ascii_lower(cs[i + n]) != l,
    ensures
        letter_run(cs, l, i) == i + n,
    decreases n,
{
    if n > 0 {
        assert(ascii_lower(cs[i]) == l);
        lemma_letter_run(cs, l, i + 1, n - 1);
    }
}

proof fn lemma_found(s: Seq<char>, c: char, i: int, at: int)
    requires
        0 <= i <= at < s.len(),
        s[at] == c,
        forall|k: int| i <= k < at ==> s[k] != c,
    ensures
        find_from(s, c, i) == at,
    decreases at - i,
{
    if i < at {
        lemma_found(s, c, i + 1, at);
    }
}

/// A bracket of one letter only.
proof fn lemma_bracket(d: DraftView, l: char, n: nat)
    requires
        n > 0,
        ascii_lower(l) == 'h' || ascii_lower(l) == 'm' || ascii_lower(l) == 's',
    ensures
        d.with_bracket(repeated(l, n)) == d.with_part(
            PartView::DateTime(raw(Field::Elapsed(l, n))),
        ),
{
    let inner = repeated(l, n);
    let small = ascii_lower(l);
    assert(inner[0] == l && inner[inner.len() - 1] == l);
    assert(!whitespace(l));
    assert(trimmed(inner) == inner);
    let low = ascii_lowered(inner);
    assert forall|i: int| 0 <= i < low.len() implies low[i] == small by {}
    reveal_strlit("black");
    reveal_strlit("blue");
    reveal_strlit("cyan");
    reveal_strlit("green");
    reveal_strlit("magenta");
    reveal_strlit("red");
    reveal_strlit("white");
    reveal_strlit("yellow");
    reveal_strlit("color");
    assert(low[0] == small);
    assert(low != "magenta"@) by {
        if low == "magenta"@ {
            assert(low[1] == 'a');
        }
    }
    assert(!has_at(low, 0, "color"@)) by {
        if has_at(low, 0, "color"@) {
            assert(low.subrange(0, 5)[0] == "color"@[0]);
        }
    }
    assert(FmtColor::named(inner) is None);
    reveal_strlit(">=");
    reveal_strlit("<=");
    reveal_strlit("<>");
    reveal_strlit(">");
    reveal_strlit("<");
    reveal_strlit("=");
    assert(condition_of(inner) is None) by {
        lemma_not_at(inner, ">="@);
        lemma_not_at(inner, "<="@);
        lemma_not_at(inner, "<>"@);
        lemma_not_at(inner, ">"@);
        lemma_not_at(inner, "<"@);
        lemma_not_at(inner, "="@);
    }
    assert(all_are(low, small));
    assert(small != 'h' ==> !all_are(low, 'h'));
    assert(small != 'm' ==> !all_are(low, 'm'));
}

proof fn lemma_not_at(s: Seq<char>, word: Seq<char>)
    requires
        s.len() > 0,
        word.len() > 0,
        s[0] != word[0],
    ensures
        !has_at(s, 0, word),
{
    if has_at(s, 0, word) {
        assert(s.subrange(0, word.len() as int)[0] == word[0]);
    }
}

/// Reading a field.
proof fn lemma_read_field(d: DraftView, cs: Seq<char>, i: int, f: Field)
    requires
        0 <= i,
        cs.len() <= usize::MAX,
        valid(f),
        i + spelled(f).len() <= cs.len(),
        cs.subrange(i, i + spelled(f).len()) == spelled(f),
        i + spelled(f).len() < cs.len() ==> separates(cs[i + spelled(f).len()]),
    ensures
        spelled(f).len() > 0,
        d.read(cs, i) == d.with_part(PartView::DateTime(raw(f))).read(cs, i + spelled(f).len()),
{
    let w = spelled(f);
    let n = w.len() as int;
    reveal_strlit("AM/PM");
    assert forall|k: int| 0 <= k < n implies #[trigger] cs[i + k] == w[k] by {
        assert(cs.subrange(i, i + n)[k] == w[k]);
    }
    match f {
        Field::Run(l, m) => {
            let small = ascii_lower(l);
            assert(cs[i + 0] == w[0]);
            assert forall|k: int| i <= k < i + n implies ascii_lower(#[trigger] cs[k]) == small by {
                assert(cs[i + (k - i)] == w[k - i]);
            }
            if i + n < cs.len() {
                assert(ascii_lower(cs[i + n]) == cs[i + n]);
            }
            lemma_letter_run(cs, small, i, n);
            assert(lex(cs, i) == (Tok::Date(date_token(small, n)), i + n));
        },
        Field::Elapsed(l, m) => {
            assert(cs[i + 0] == '[');
            assert forall|k: int| i <= k < i + n - 1 implies cs[k] != ']' by {
                assert(cs[i + (k - i)] == w[k - i]);
            }
            assert(cs[i + (n - 1)] == w[n - 1]);
            lemma_found(cs, ']', i, i + n - 1);
            let tok = Tok::Bracket { from: (i + 1) as usize, to: (i + n - 1) as usize };
            assert(lex(cs, i) == (tok, i + n));
            let inner = cs.subrange(i + 1, i + n - 1);
            assert forall|k: int| 0 <= k < m implies #[trigger] inner[k] == l by {
                assert(cs[i + (k + 1)] == w[k + 1]);
            }
            assert(inner =~= repeated(l, m));
            lemma_bracket(d, l, m);
            assert(d.after(cs, tok) == d.with_part(PartView::DateTime(raw(f))));
        },
        Field::Half => {
            assert(word_at(cs, i, "AM/PM"@)) by {
                assert forall|k: int| 0 <= k < 5 implies ascii_upper(#[trigger] cs[i + k])
                    == "AM/PM"@[k] by {
                    assert(k == 0 || k == 1 || k == 2 || k == 3 || k == 4);
                }
            }
            assert(cs[i + 0] == 'A');
            assert(lex(cs, i) == (Tok::Date(DtToken::AmPm), i + 5));
        },
    }
}

/// Reading what separates fields.
proof fn lemma_read_sep(d: DraftView, cs: Seq<char>, i: int, sep: Seq<char>)
    requires
        0 <= i,
        cs.len() <= usize::MAX,
        !d.saw_number,
        i + sep.len() <= cs.len(),
        cs.subrange(i, i + sep.len()) == sep,
        forall|k: int| 0 <= k < sep.len() ==> separates(#[trigger] sep[k]),
    ensures
        d.read(cs, i) == d.with_literal(sep).read(cs, i + sep.len()),
    decreases sep.len(),
{
    if sep.len() == 0 {
        assert(d.with_literal(sep) =~= d);
    } else {
        let c = sep[0];
        assert(cs.subrange(i, i + sep.len())[0] == c);
        let rest = sep.subrange(1, sep.len() as int);
        let (tok, next) = lex(cs, i);
        assert(next == i + 1);
        assert(cs.subrange(i, i + 1) =~= seq![c]);
        let e = d.with_literal(seq![c]);
        assert(d.after(cs, tok) =~= e);
        assert(cs.subrange(i + 1, i + 1 + rest.len()) =~= rest) by {
            assert forall|k: int| 0 <= k < rest.len() implies cs[i + 1 + k] == rest[k] by {
                assert(cs.subrange(i, i + sep.len())[k + 1] == sep[k + 1]);
            }
        }
        lemma_read_sep(e, cs, i + 1, rest);
        assert(e.with_literal(rest) =~= d.with_literal(sep)) by {
            assert(d.literal + seq![c] + rest =~= d.literal + sep);
        }
    }
}

/// At the end there is nothing to read.
proof fn lemma_read_end(d: DraftView, cs: Seq<char>)
    ensures
        d.read(cs, cs.len() as int) == d,
{
    let n = cs.len() as int;
    let l = ascii_lower(cs[n]);
    assert(letter_run(cs, l, n) == n);
}

spec fn draft(dt: Seq<DtToken>, sep: Seq<char>) -> DraftView {
    DraftView { parts: parts_of(dt, sep), ..DraftView::start() }
}

/// Reading a code from its start comes to be what these tokens make, up to `at`.
#[verifier::opaque]
spec fn reaches(cs: Seq<char>, dt: Seq<DtToken>, sep: Seq<char>, at: int) -> bool {
    DraftView::start().read(cs, 0) == draft(dt, sep).read(cs, at)
}

/// One field more behind others.
proof fn lemma_one_more(dt: Seq<DtToken>, sep: Seq<char>, f: Field, cs: Seq<char>, p: int)
    requires
        dt.len() > 0,
        separator(sep),
        valid(f),
        cs.len() <= usize::MAX,
        0 <= p,
        p + sep.len() + spelled(f).len() <= cs.len(),
        cs.subrange(p, p + sep.len()) == sep,
        cs.subrange(p + sep.len(), p + sep.len() + spelled(f).len()) == spelled(f),
        p + sep.len() + spelled(f).len() < cs.len() ==> separates(
            cs[p + sep.len() + spelled(f).len()],
        ),
        reaches(cs, dt, sep, p),
    ensures
        reaches(cs, dt.push(raw(f)), sep, p + sep.len() + spelled(f).len()),
{
    reveal(reaches);
    let d = draft(dt, sep);
    lemma_read_sep(d, cs, p, sep);
    let e = d.with_literal(sep);
    let q = p + sep.len();
    lemma_read_field(e, cs, q, f);
    let all = dt.push(raw(f));
    assert(all.drop_last() =~= dt);
    assert(Seq::<char>::empty() + sep =~= sep);
    assert(e.literal =~= sep);
    assert(e.with_part(PartView::DateTime(raw(f))) =~= draft(all, sep));
}

proof fn lemma_first_one(sep: Seq<char>, f: Field, cs: Seq<char>)
    requires
        valid(f),
        cs.len() <= usize::MAX,
        spelled(f).len() <= cs.len(),
        cs.subrange(0, spelled(f).len() as int) == spelled(f),
        spelled(f).len() < cs.len() ==> separates(cs[spelled(f).len() as int]),
    ensures
        reaches(cs, seq![raw(f)], sep, spelled(f).len() as int),
{
    reveal(reaches);
    lemma_read_field(DraftView::start(), cs, 0, f);
    let e = DraftView::start().with_part(PartView::DateTime(raw(f)));
    assert(Seq::<PartView>::empty().push(PartView::DateTime(raw(f))) =~= seq![
        PartView::DateTime(raw(f)),
    ]);
    assert(e =~= draft(seq![raw(f)], sep));
}

/// How the code of some fields goes on with one more.
proof fn lemma_code_push(fields: Seq<Field>, sep: Seq<char>)
    requires
        fields.len() > 0,
    ensures
        fields.len() == 1 ==> date_code(fields, sep) == spelled(fields[0]),
        fields.len() > 1 ==> date_code(fields, sep) == date_code(fields.drop_last(), sep) + sep
            + spelled(fields.last()),
{
    let init = fields.drop_last();
    let pieces = Seq::new(fields.len(), |j: int| spelled(fields[j]));
    assert(pieces.drop_last() =~= Seq::new(init.len(), |j: int| spelled(init[j])));
}

/// The first `k` fields are read.
proof fn lemma_read_fields(fields: Seq<Field>, sep: Seq<char>, cs: Seq<char>, k: int)
    requires
        0 < k <= fields.len(),
        separator(sep),
        cs == date_code(fields, sep),
        cs.len() <= usize::MAX,
        forall|j: int| 0 <= j < fields.len() ==> valid(#[trigger] fields[j]),
    ensures
        reaches(
            cs,
            raws(fields.subrange(0, k)),
            sep,
            date_code(fields.subrange(0, k), sep).len() as int,
        ),
    decreases k,
{
    let done = fields.subrange(0, k);
    let at = date_code(done, sep).len() as int;
    lemma_code_prefix(fields, sep, k);
    lemma_code_push(done, sep);
    let f = fields[k - 1];
    let w = spelled(f);
    assert(valid(f));
    assert(done.last() == f);
    if at < cs.len() {
        assert(cs.subrange(at, at + sep.len())[0] == sep[0]);
        assert(separates(sep[0]));
    }
    if k == 1 {
        lemma_first_one(sep, f, cs);
        assert(raws(done) =~= seq![raw(f)]);
    } else {
        let before = fields.subrange(0, k - 1);
        lemma_read_fields(fields, sep, cs, k - 1);
        lemma_code_prefix(fields, sep, k - 1);
        assert(done.drop_last() =~= before);
        let p = date_code(before, sep).len() as int;
        let q = p + sep.len();
        let code = date_code(done, sep);
        assert(cs.subrange(q, q + w.len()) =~= w) by {
            assert forall|j: int| 0 <= j < w.len() implies cs[q + j] == w[j] by {
                assert(cs.subrange(0, at)[q + j] == code[q + j]);
            }
        }
        lemma_one_more(raws(before), sep, f, cs, p);
        assert(raws(done) =~= raws(before).push(raw(f)));
    }
}

/// The code of the first fields begins the code, and a separator follows it.
proof fn lemma_code_prefix(fields: Seq<Field>, sep: Seq<char>, k: int)
    requires
        0 < k <= fields.len(),
    ensures
        ({
            let at = date_code(fields.subrange(0, k), sep).len() as int;
            let cs = date_code(fields, sep);
            &&& at <= cs.len()
            &&& cs.subrange(0, at) == date_code(fields.subrange(0, k), sep)
            &&& k < fields.len() ==> at + sep.len() <= cs.len() && cs.subrange(at, at + sep.len())
                == sep
            &&& k == fields.len() ==> at == cs.len()
        }),
    decreases fields.len(),
{
    let cs = date_code(fields, sep);
    if k == fields.len() {
        assert(fields.subrange(0, k) =~= fields);
        assert(cs.subrange(0, cs.len() as int) =~= cs);
    } else {
        let init = fields.drop_last();
        let pieces = Seq::new(fields.len(), |j: int| spelled(fields[j]));
        assert(pieces.drop_last() =~= Seq::new(init.len(), |j: int| spelled(init[j])));
        let b = date_code(init, sep);
        assert(cs == b + sep + spelled(fields.last()));
        lemma_code_prefix(init, sep, k);
        assert(init.subrange(0, k) =~= fields.subrange(0, k));
        let at = date_code(fields.subrange(0, k), sep).len() as int;
        assert(cs.subrange(0, at) =~= b.subrange(0, at));
        if k < init.len() {
            assert(cs.subrange(at, at + sep.len()) =~= b.subrange(at, at + sep.len()));
        } else {
            assert(cs.subrange(at, at + sep.len()) =~= sep);
        }
    }
}

/// What a date code shows, token by token.
proof fn lemma_date_code(fields: Seq<Field>, sep: Seq<char>, c: Computed)
    requires
        fields.len() > 0,
        separator(sep),
        date_code(fields, sep).len() <= usize::MAX,
        forall|j: int| 0 <= j < fields.len() ==> valid(#[trigger] fields[j]),
    ensures
        section_of(date_code(fields, sep)).number_text(false, c) == strung(
            Seq::new(
                fields.len(),
                |k: int|
                    token_text(
                        resolved(raws(fields), k),
                        c.date,
                        raws(fields).contains(DtToken::AmPm),
                    ),
            ),
            sep,
        ),
{
    let cs = date_code(fields, sep);
    let n = fields.len() as int;
    lemma_read_fields(fields, sep, cs, n);
    reveal(reaches);
    lemma_code_prefix(fields, sep, n);
    assert(fields.subrange(0, n) =~= fields);
    let dt = raws(fields);
    let d = draft(dt, sep);
    lemma_read_end(d, cs);
    lemma_parts_of(dt, sep);
    assert(d.flushed() == d);
    lemma_settled(dt, sep, d.spec, d.saw_number);
    let fixed = Seq::new(dt.len(), |k: int| resolved(dt, k));
    let twelve = dt.contains(DtToken::AmPm);
    lemma_shown(fixed, sep, c, twelve);
    assert(Seq::new(fixed.len(), |k: int| token_text(fixed[k], c.date, twelve)) =~= Seq::new(
        fields.len(),
        |k: int| token_text(resolved(raws(fields), k), c.date, raws(fields).contains(DtToken::AmPm)),
    ));
}

// -------------------------------------------------------------------- laws --

/// Field `k` comes right behind hours or right before seconds.
pub open spec fn beside_a_time(fields: Seq<Field>, k: int) -> bool {
    ||| k > 0 && letter(fields[k - 1]) == 'h'
    ||| k + 1 < fields.len() && fields[k + 1] is Run && letter(fields[k + 1]) == 's'
}

/// A run of the letter.
pub open spec fn is_run(f: Field, l: char) -> bool {
    f is Run && letter(f) == l
}

/// How many letters a field has.
pub open spec fn length(f: Field) -> nat {
    match f {
        Field::Run(l, n) => n,
        Field::Elapsed(l, n) => n,
        Field::Half => 5,
    }
}

/// A field of one letter shows a number as it is, one of more letters shows it with at
/// least two digits.
pub open spec fn in_digits(x: nat, n: nat) -> Seq<char> {
    if n == 1 || decimal(x).len() >= 2 {
        decimal(x)
    } else {
        seq!['0'] + decimal(x)
    }
}

/// A date code shows the parts of the date that its fields name, in their order and with
/// the separators between them. One or two `m` are the minute right behind hours or right
/// before seconds, and the month elsewhere; hours are those of a clock of twelve exactly
/// when the code marks the half of the day; in brackets stands the whole time that
/// elapsed.
pub proof fn a_date_code_shows_what_its_fields_name(
    fields: Seq<Field>,
    sep: Seq<char>,
    texts: Seq<Seq<char>>,
    c: Computed,
)
    requires
        fields.len() > 0,
        texts.len() == fields.len(),
        separator(sep),
        date_code(fields, sep).len() <= usize::MAX,
        forall|j: int| 0 <= j < fields.len() ==> valid(#[trigger] fields[j]),
        c.date.year >= 0,
        c.date.hour < 24,
        // Years: two digits of them, or four.
        forall|k: int|
            0 <= k < fields.len() && is_run(#[trigger] fields[k], 'y') ==> texts[k] == if length(
                fields[k],
            ) <= 2 {
                padded(decimal((c.date.year % 100) as nat), '0', 2)
            } else {
                padded(decimal(c.date.year as nat), '0', 4)
            },
        // Minutes beside a time.
        forall|k: int|
            0 <= k < fields.len() && is_run(#[trigger] fields[k], 'm') && length(fields[k]) <= 2
                && beside_a_time(fields, k) ==> texts[k] == in_digits(
                c.date.minute as nat,
                length(fields[k]),
            ),
        // Months elsewhere: a number, the first three letters of the name, the name.
        forall|k: int|
            0 <= k < fields.len() && is_run(#[trigger] fields[k], 'm') && !(length(fields[k]) <= 2
                && beside_a_time(fields, k)) ==> texts[k] == if length(fields[k]) <= 2 {
                in_digits(c.date.month as nat, length(fields[k]))
            } else if length(fields[k]) == 3 {
                english_month(c.date.month as int).subrange(0, 3)
            } else {
                english_month(c.date.month as int)
            },
        // Days: a number, the first three letters of the day of the week, all of it.
        forall|k: int|
            0 <= k < fields.len() && is_run(#[trigger] fields[k], 'd') ==> texts[k] == if length(
                fields[k],
            ) <= 2 {
                in_digits(c.date.day as nat, length(fields[k]))
            } else if length(fields[k]) == 3 {
                english_day(c.date.weekday as int).subrange(0, 3)
            } else {
                english_day(c.date.weekday as int)
            },
        1 <= c.date.month <= 12,
        c.date.weekday < 7,
        // Hours of one clock or the other.
        forall|k: int|
            0 <= k < fields.len() && is_run(#[trigger] fields[k], 'h') ==> texts[k] == in_digits(
                (if !fields.contains(Field::Half) {
                    c.date.hour as int
                } else if c.date.hour == 0 || c.date.hour == 12 {
                    12
                } else if c.date.hour < 12 {
                    c.date.hour as int
                } else {
                    c.date.hour - 12
                }) as nat,
                length(fields[k]),
            ),
        forall|k: int|
            0 <= k < fields.len() && is_run(#[trigger] fields[k], 's') ==> texts[k] == in_digits(
                c.date.second as nat,
                length(fields[k]),
            ),
        forall|k: int|
            0 <= k < fields.len() && (#[trigger] fields[k]) is Half ==> texts[k] == if c.date.hour
                < 12 {
                "AM"@
            } else {
                "PM"@
            },
        forall|k: int|
            0 <= k < fields.len() && (#[trigger] fields[k]) is Elapsed ==> {
                let t = if letter(fields[k]) == 'h' {
                    c.date.elapsed_hours
                } else if letter(fields[k]) == 'm' {
                    c.date.elapsed_minutes
                } else {
                    c.date.elapsed_seconds
                };
                texts[k] == if t < 0 {
                    seq!['-'] + decimal((-t) as nat)
                } else {
                    decimal(t as nat)
                }
            },
    ensures
        section_of(date_code(fields, sep)).number_text(false, c) == strung(texts, sep),
{
    lemma_date_code(fields, sep, c);
    let dt = raws(fields);
    let twelve = dt.contains(DtToken::AmPm);
    assert(twelve == fields.contains(Field::Half)) by {
        if twelve {
            let k = choose|k: int| 0 <= k < dt.len() && dt[k] == DtToken::AmPm;
            assert(fields[k] == Field::Half);
        }
        if fields.contains(Field::Half) {
            let k = choose|k: int| 0 <= k < fields.len() && fields[k] == Field::Half;
            assert(dt[k] == DtToken::AmPm);
        }
    }
    let got = Seq::new(fields.len(), |k: int| token_text(resolved(dt, k), c.date, twelve));
    assert forall|k: int| 0 <= k < fields.len() implies got[k] == texts[k] by {
        let f = fields[k];
        assert(valid(f));
        if k > 0 {
            assert(valid(fields[k - 1]));
        }
        if k + 1 < fields.len() {
            assert(valid(fields[k + 1]));
        }
        lemma_two_digits(c.date.month as nat);
        lemma_two_digits(c.date.day as nat);
        lemma_two_digits(c.date.minute as nat);
        lemma_two_digits(c.date.second as nat);
        lemma_two_digits(c.date.hour as nat);
        lemma_two_digits(if c.date.hour % 12 == 0 {
            12nat
        } else {
            (c.date.hour % 12) as nat
        });
    }
    assert(got =~= texts);
}

proof fn lemma_two_digits(x: nat)
    ensures
        decimal(x).len() > 0,
        padded(decimal(x), '0', 2) == in_digits(x, 2),
    decreases x,
{
    let d = decimal(x);
    if x >= 10 {
        lemma_two_digits(x / 10);
        assert(d.len() >= 2);
    } else {
        assert(repeated('0', 1) =~= seq!['0']);
    }
}

/// The months of the year.
pub open spec fn english_month(m: int) -> Seq<char> {
    seq![
        "January"@,
        "February"@,
        "March"@,
        "April"@,
        "May"@,
        "June"@,
        "July"@,
        "August"@,
        "September"@,
        "October"@,
        "November"@,
        "December"@,
    ][m - 1]
}

/// The days of the week, from Sunday on.
pub open spec fn english_day(d: int) -> Seq<char> {
    seq![
        "Sunday"@,
        "Monday"@,
        "Tuesday"@,
        "Wednesday"@,
        "Thursday"@,
        "Friday"@,
        "Saturday"@,
    ][d]
}

/// Minutes and seconds: one or two `m` right before a run of `s` show the minute and never
/// the month, whatever the date.
pub proof fn minutes_stand_before_seconds(m: nat, s: nat, sep: Seq<char>, c: Computed)
    requires
        1 <= m <= 2,
        1 <= s,
        separator(sep),
        m + sep.len() + s <= usize::MAX,
    ensures
        section_of(repeated('m', m) + sep + repeated('s', s)).number_text(false, c) == in_digits(
            c.date.minute as nat,
            m,
        ) + sep + in_digits(c.date.second as nat, s),
{
    let fields = seq![Field::Run('m', m), Field::Run('s', s)];
    let code = repeated('m', m) + sep + repeated('s', s);
    let pieces = Seq::new(fields.len(), |k: int| spelled(fields[k]));
    assert(pieces.drop_last() =~= seq![repeated('m', m)]);
    assert(strung(pieces.drop_last(), sep) == repeated('m', m));
    assert(date_code(fields, sep) == code);
    assert forall|j: int| 0 <= j < fields.len() implies valid(#[trigger] fields[j]) by {
        assert(j == 0 || j == 1);
    }
    lemma_date_code(fields, sep, c);
    let dt = raws(fields);
    let twelve = dt.contains(DtToken::AmPm);
    let texts = Seq::new(fields.len(), |k: int| token_text(resolved(dt, k), c.date, twelve));
    lemma_two_digits(c.date.minute as nat);
    lemma_two_digits(c.date.second as nat);
    assert(dt[0] == raw(fields[0]) && dt[1] == raw(fields[1]));
    assert(texts.drop_last() =~= seq![texts[0]]);
    assert(strung(texts.drop_last(), sep) == texts[0]);
    assert(texts[0] == in_digits(c.date.minute as nat, m));
    assert(texts[1] == in_digits(c.date.second as nat, s));
    assert(texts.last() == texts[1]);
}

// ------------------------------------------------------------ number codes --

/// A number code: `#` and `0` for the digits before the point, the first behind `#,` where
/// they are grouped; behind the point `0` and `#` again; the digits of a power of ten;
/// commas that scale; percent signs.
pub ghost struct NumberCode {
    pub grouped: bool,
    pub hashes: nat,
    pub zeros: nat,
    pub point: bool,
    pub dec_zeros: nat,
    pub dec_hashes: nat,
    pub power: Option<nat>,
    pub commas: nat,
    pub percents: nat,
}

impl NumberCode {
    pub open spec fn ints(self) -> Seq<char> {
        (if self.grouped {
            seq!['#', ',']
        } else {
            Seq::empty()
        }) + repeated('#', self.hashes) + repeated('0', self.zeros)
    }

    pub open spec fn decs(self) -> Seq<char> {
        if self.point {
            seq!['.'] + repeated('0', self.dec_zeros) + repeated('#', self.dec_hashes)
        } else {
            Seq::empty()
        }
    }

    pub open spec fn powers(self) -> Seq<char> {
        match self.power {
            Some(n) => seq!['E', '+'] + repeated('0', n),
            None => Seq::empty(),
        }
    }

    pub open spec fn text(self) -> Seq<char> {
        self.ints() + self.decs() + self.powers() + repeated(',', self.commas) + repeated(
            '%',
            self.percents,
        )
    }
}

/// The draft with so many digit places more.
spec fn with_places(d: DraftView, c: char, n: nat) -> DraftView {
    if n == 0 {
        d
    } else {
        let e = if d.saw_number {
            d
        } else {
            d.with_part(PartView::Number(NumSpec::blank()))
        };
        DraftView {
            saw_number: true,
            spec: if d.in_decimals {
                NumSpec {
                    dec_max: (d.spec.dec_max + n) as usize,
                    dec_zeros: if c == '0' {
                        (d.spec.dec_zeros + n) as usize
                    } else {
                        d.spec.dec_zeros
                    },
                    ..d.spec
                }
            } else if c == '0' {
                NumSpec { int_zeros: (d.spec.int_zeros + n) as usize, ..d.spec }
            } else {
                d.spec
            },
            ..e
        }
    }
}

/// `run` stands in `cs` at `i`.
spec fn stands(cs: Seq<char>, i: int, run: Seq<char>) -> bool {
    0 <= i && i + run.len() <= cs.len() && forall|k: int|
        0 <= k < run.len() ==> #[trigger] cs[i + k] == run[k]
}

proof fn lemma_read_places(d: DraftView, cs: Seq<char>, i: int, c: char, n: nat)
    requires
        c == '0' || c == '#',
        stands(cs, i, repeated(c, n)),
        cs.len() <= usize::MAX,
        d.spec.int_zeros + n <= usize::MAX,
        d.spec.dec_zeros + n <= usize::MAX,
        d.spec.dec_max + n <= usize::MAX,
    ensures
        d.read(cs, i) == with_places(d, c, n).read(cs, i + n),
    decreases n,
{
    if n > 0 {
        assert(cs[i + 0] == repeated(c, n)[0]);
        let (tok, next) = lex(cs, i);
        assert(tok == Tok::Digit(c) && next == i + 1);
        let e = d.after(cs, tok);
        assert(e == with_places(d, c, 1));
        let rest = repeated(c, (n - 1) as nat);
        assert(stands(cs, i + 1, rest)) by {
            assert forall|k: int| 0 <= k < rest.len() implies #[trigger] cs[i + 1 + k] == rest[k] by {
                assert(cs[i + (k + 1)] == repeated(c, n)[k + 1]);
            }
        }
        lemma_read_places(e, cs, i + 1, c, (n - 1) as nat);
        assert(with_places(e, c, (n - 1) as nat) =~= with_places(d, c, n));
    }
}

proof fn lemma_read_commas(d: DraftView, cs: Seq<char>, i: int, n: nat)
    requires
        stands(cs, i, repeated(',', n)),
        cs.len() <= usize::MAX,
        d.saw_number,
        d.spec.scale_commas + n <= usize::MAX,
        forall|k: int| i <= k < cs.len() ==> !placeholder(#[trigger] cs[k]),
    ensures
        d.read(cs, i) == (DraftView {
            spec: NumSpec { scale_commas: (d.spec.scale_commas + n) as usize, ..d.spec },
            ..d
        }).read(cs, i + n),
    decreases n,
{
    if n > 0 {
        assert(cs[i + 0] == repeated(',', n)[0]);
        assert(!placeholder_from(cs, i + 1));
        let (tok, next) = lex(cs, i);
        assert(tok == Tok::Comma { at: i as usize, more: false } && next == i + 1);
        let e = d.after(cs, tok);
        let rest = repeated(',', (n - 1) as nat);
        assert(stands(cs, i + 1, rest)) by {
            assert forall|k: int| 0 <= k < rest.len() implies #[trigger] cs[i + 1 + k] == rest[k] by {
                assert(cs[i + (k + 1)] == repeated(',', n)[k + 1]);
            }
        }
        lemma_read_commas(e, cs, i + 1, (n - 1) as nat);
    } else {
        assert(NumSpec { scale_commas: (d.spec.scale_commas + n) as usize, ..d.spec } == d.spec);
    }
}

proof fn lemma_read_percents(d: DraftView, cs: Seq<char>, i: int, n: nat)
    requires
        stands(cs, i, repeated('%', n)),
        cs.len() <= usize::MAX,
        d.spec.percents + n <= usize::MAX,
    ensures
        d.read(cs, i) == (DraftView {
            spec: NumSpec { percents: (d.spec.percents + n) as usize, ..d.spec },
            literal: d.literal + repeated('%', n),
            ..d
        }).read(cs, i + n),
    decreases n,
{
    if n > 0 {
        assert(cs[i + 0] == repeated('%', n)[0]);
        let (tok, next) = lex(cs, i);
        assert(tok == Tok::Percent { at: i as usize } && next == i + 1);
        let e = d.after(cs, tok);
        let rest = repeated('%', (n - 1) as nat);
        assert(stands(cs, i + 1, rest)) by {
            assert forall|k: int| 0 <= k < rest.len() implies #[trigger] cs[i + 1 + k] == rest[k] by {
                assert(cs[i + (k + 1)] == repeated('%', n)[k + 1]);
            }
        }
        lemma_read_percents(e, cs, i + 1, (n - 1) as nat);
        assert(d.literal + seq!['%'] + rest =~= d.literal + repeated('%', n));
    } else {
        assert(NumSpec { percents: (d.spec.percents + n) as usize, ..d.spec } == d.spec);
        assert(d.literal + repeated('%', n) =~= d.literal);
    }
}

proof fn lemma_place_run(cs: Seq<char>, i: int, n: int)
    requires
        0 <= i,
        0 <= n,
        i + n <= cs.len(),
        forall|k: int| i <= k < i + n ==> placeholder(#[trigger] cs[k]),
        i + n < cs.len() ==> !placeholder(cs[i + n]),
    ensures
        placeholder_run(cs, i) == i + n,
    decreases n,
{
    if n > 0 {
        assert(placeholder(cs[i]));
        lemma_place_run(cs, i + 1, n - 1);
    }
}

/// A number code means what its characters count: so many digits at least before the
/// point, so many at least and at most behind it, groups, a power of ten, a division by a
/// thousand for every comma behind and a multiplication by a hundred for every percent
/// sign, which show too.
pub proof fn a_number_code_counts_its_places(code: NumberCode)
    requires
        code.hashes + code.zeros > 0,
        code.text().len() <= usize::MAX,
    ensures
        ({
            let s = section_of(code.text());
            let spec = NumSpec {
                int_zeros: code.zeros as usize,
                dec_zeros: if code.point {
                    code.dec_zeros as usize
                } else {
                    0
                },
                dec_max: if code.point {
                    (code.dec_zeros + code.dec_hashes) as usize
                } else {
                    0
                },
                grouped: code.grouped,
                scale_commas: code.commas as usize,
                percents: code.percents as usize,
                exponent: match code.power {
                    Some(n) => Some(n as usize),
                    None => None,
                },
            };
            &&& !s.passthrough
            &&& s.color is None
            &&& s.condition is None
            &&& s.parts == if code.percents == 0 {
                seq![PartView::Number(spec)]
            } else {
                seq![
                    PartView::Number(spec),
                    PartView::Literal(repeated('%', code.percents)),
                ]
            }
        }),
{
    let cs = code.text();
    let start = DraftView::start();
    let a = code.ints().len() as int;
    let b = a + code.decs().len();
    let e = b + code.powers().len();
    let f = e + code.commas;
    lemma_code_pieces(code);
    // Before the point.
    let d1 = draft_ints(code);
    lemma_ints_read(code);
    // Behind the point.
    let d2 = DraftView { in_decimals: code.point, spec: spec_decs(code), ..d1 };
    lemma_decs_read(code, d1, d2);
    // The power of ten.
    let d3 = DraftView {
        spec: NumSpec {
            exponent: match code.power {
                Some(n) => Some(n as usize),
                None => None,
            },
            ..d2.spec
        },
        ..d2
    };
    lemma_power_read(code, d2, d3);
    // What scales.
    assert forall|k: int| e <= k < cs.len() implies !placeholder(#[trigger] cs[k]) by {
        if k < f {
            assert(cs[e + (k - e)] == repeated(',', code.commas)[k - e]);
        } else {
            assert(cs[f + (k - f)] == repeated('%', code.percents)[k - f]);
        }
    }
    lemma_read_commas(d3, cs, e, code.commas);
    let d4 = DraftView {
        spec: NumSpec { scale_commas: code.commas as usize, ..d3.spec },
        ..d3
    };
    lemma_read_percents(d4, cs, f, code.percents);
    let d5 = DraftView {
        spec: NumSpec { percents: code.percents as usize, ..d4.spec },
        literal: repeated('%', code.percents),
        ..d4
    };
    assert(Seq::<char>::empty() + repeated('%', code.percents) =~= repeated('%', code.percents));
    assert(start.read(cs, 0) == d5.read(cs, f + code.percents));
    lemma_read_end(d5, cs);
    let parts = d5.flushed().parts;
    let one = seq![PartView::Number(NumSpec::blank())];
    assert(one.drop_last() =~= Seq::<PartView>::empty());
    assert(dates_of(one.drop_last()) == Seq::<DtToken>::empty());
    assert(dates_of(one) == Seq::<DtToken>::empty());
    if code.percents > 0 {
        assert(parts.drop_last() =~= one);
    }
    assert(dates_of(parts) == Seq::<DtToken>::empty());
    let s = section_of(cs);
    assert(s.parts =~= if code.percents == 0 {
        seq![PartView::Number(d5.spec)]
    } else {
        seq![PartView::Number(d5.spec), PartView::Literal(repeated('%', code.percents))]
    });
}

spec fn spec_ints(code: NumberCode) -> NumSpec {
    NumSpec { int_zeros: code.zeros as usize, grouped: code.grouped, ..NumSpec::blank() }
}

spec fn spec_decs(code: NumberCode) -> NumSpec {
    NumSpec {
        dec_zeros: if code.point {
            code.dec_zeros as usize
        } else {
            0
        },
        dec_max: if code.point {
            (code.dec_zeros + code.dec_hashes) as usize
        } else {
            0
        },
        ..spec_ints(code)
    }
}

spec fn draft_ints(code: NumberCode) -> DraftView {
    DraftView {
        parts: seq![PartView::Number(NumSpec::blank())],
        spec: spec_ints(code),
        saw_number: true,
        ..DraftView::start()
    }
}

/// Where the pieces of a number code stand.
proof fn lemma_code_pieces(code: NumberCode)
    ensures
        ({
            let cs = code.text();
            let a = code.ints().len() as int;
            let b = a + code.decs().len();
            let e = b + code.powers().len();
            let f = e + code.commas;
            &&& stands(cs, 0, code.ints())
            &&& stands(cs, a, code.decs())
            &&& stands(cs, b, code.powers())
            &&& stands(cs, e, repeated(',', code.commas))
            &&& stands(cs, f, repeated('%', code.percents))
            &&& cs.len() == f + code.percents
            &&& code.ints().len() == code.hashes + code.zeros + if code.grouped {
                2int
            } else {
                0
            }
            &&& code.decs().len() == if code.point {
                1 + code.dec_zeros + code.dec_hashes
            } else {
                0
            }
        }),
{
}

proof fn lemma_ints_read(code: NumberCode)
    requires
        code.hashes + code.zeros > 0,
        code.text().len() <= usize::MAX,
    ensures
        DraftView::start().read(code.text(), 0) == draft_ints(code).read(
            code.text(),
            code.ints().len() as int,
        ),
{
    let cs = code.text();
    lemma_code_pieces(code);
    let ints = code.ints();
    let start = DraftView::start();
    let g: int = if code.grouped {
        2
    } else {
        0
    };
    let d0 = if code.grouped {
        DraftView {
            parts: seq![PartView::Number(NumSpec::blank())],
            saw_number: true,
            spec: NumSpec { grouped: true, ..NumSpec::blank() },
            ..start
        }
    } else {
        start
    };
    assert(stands(cs, g, repeated('#', code.hashes))) by {
        assert forall|k: int| 0 <= k < code.hashes implies #[trigger] cs[g + k] == repeated(
            '#',
            code.hashes,
        )[k] by {
            assert(cs[0 + (g + k)] == ints[g + k]);
        }
    }
    let h = g + code.hashes;
    assert(stands(cs, h, repeated('0', code.zeros))) by {
        assert forall|k: int| 0 <= k < code.zeros implies #[trigger] cs[h + k] == repeated(
            '0',
            code.zeros,
        )[k] by {
            assert(cs[0 + (h + k)] == ints[h + k]);
        }
    }
    if code.grouped {
        assert(cs[0int + 0] == ints[0] && cs[0int + 1] == ints[1]);
        let (tok, next) = lex(cs, 0);
        assert(tok == Tok::Digit('#') && next == 1);
        let e = start.after(cs, tok);
        assert(Seq::<PartView>::empty().push(PartView::Number(NumSpec::blank())) =~= seq![
            PartView::Number(NumSpec::blank()),
        ]);
        assert(placeholder_from(cs, 2)) by {
            assert(cs[0int + 2] == ints[2]);
            assert(placeholder(cs[2]));
        }
        let (tok2, next2) = lex(cs, 1);
        assert(tok2 == Tok::Comma { at: 1, more: true } && next2 == 2);
        assert(e.after(cs, tok2) =~= d0);
        assert(start.read(cs, 0) == e.read(cs, 1));
        assert(e.read(cs, 1) == d0.read(cs, 2));
    }
    lemma_read_places(d0, cs, g, '#', code.hashes);
    let d1 = with_places(d0, '#', code.hashes);
    lemma_read_places(d1, cs, h, '0', code.zeros);
    let d2 = with_places(d1, '0', code.zeros);
    assert(Seq::<PartView>::empty().push(PartView::Number(NumSpec::blank())) =~= seq![
        PartView::Number(NumSpec::blank()),
    ]);
    assert(d2 =~= draft_ints(code));
    assert(start.read(cs, 0) == d0.read(cs, g));
    assert(d0.read(cs, g) == d1.read(cs, h));
    assert(d1.read(cs, h) == d2.read(cs, h + code.zeros));
    assert(h + code.zeros == code.ints().len());
}

proof fn lemma_decs_read(code: NumberCode, d1: DraftView, d2: DraftView)
    requires
        code.hashes + code.zeros > 0,
        code.text().len() <= usize::MAX,
        d1 == draft_ints(code),
        d2 == (DraftView { in_decimals: code.point, spec: spec_decs(code), ..d1 }),
    ensures
        d1.read(code.text(), code.ints().len() as int) == d2.read(
            code.text(),
            (code.ints().len() + code.decs().len()) as int,
        ),
{
    let cs = code.text();
    lemma_code_pieces(code);
    let decs = code.decs();
    let a = code.ints().len() as int;
    if code.point {
        assert(cs[a + 0] == decs[0]);
        let (tok, next) = lex(cs, a);
        assert(tok == Tok::Point { at: a as usize, more: a + 1 < cs.len() } && next == a + 1);
        let e = d1.after(cs, tok);
        assert(stands(cs, a + 1, repeated('0', code.dec_zeros))) by {
            assert forall|k: int| 0 <= k < code.dec_zeros implies #[trigger] cs[a + 1 + k]
                == repeated('0', code.dec_zeros)[k] by {
                assert(cs[a + (1 + k)] == decs[1 + k]);
            }
        }
        let h = a + 1 + code.dec_zeros;
        assert(stands(cs, h, repeated('#', code.dec_hashes))) by {
            assert forall|k: int| 0 <= k < code.dec_hashes implies #[trigger] cs[h + k] == repeated(
                '#',
                code.dec_hashes,
            )[k] by {
                assert(cs[a + (1 + code.dec_zeros + k)] == decs[1 + code.dec_zeros + k]);
            }
        }
        lemma_read_places(e, cs, a + 1, '0', code.dec_zeros);
        let f = with_places(e, '0', code.dec_zeros);
        lemma_read_places(f, cs, h, '#', code.dec_hashes);
        assert(with_places(f, '#', code.dec_hashes) =~= d2);
    } else {
        assert(d2 =~= d1);
    }
}

proof fn lemma_power_read(code: NumberCode, d2: DraftView, d3: DraftView)
    requires
        code.hashes + code.zeros > 0,
        code.text().len() <= usize::MAX,
        d2.saw_number,
        d2.spec.exponent is None,
        d3 == (DraftView {
            spec: NumSpec {
                exponent: match code.power {
                    Some(n) => Some(n as usize),
                    None => None,
                },
                ..d2.spec
            },
            ..d2
        }),
    ensures
        d2.read(code.text(), (code.ints().len() + code.decs().len()) as int) == d3.read(
            code.text(),
            (code.ints().len() + code.decs().len() + code.powers().len()) as int,
        ),
{
    let cs = code.text();
    lemma_code_pieces(code);
    let b = (code.ints().len() + code.decs().len()) as int;
    match code.power {
        Some(n) => {
            let powers = code.powers();
            assert(cs[b + 0] == powers[0] && cs[b + 1] == powers[1]);
            let e = b + 2 + n;
            assert forall|k: int| b + 2 <= k < e implies placeholder(#[trigger] cs[k]) by {
                assert(cs[b + (k - b)] == powers[k - b]);
            }
            if e < cs.len() {
                if code.commas > 0 {
                    assert(cs[e + 0] == repeated(',', code.commas)[0]);
                } else {
                    assert(cs[e + code.commas + 0] == repeated('%', code.percents)[0]);
                }
            }
            lemma_place_run(cs, b + 2, n as int);
            let (tok, next) = lex(cs, b);
            assert(tok == Tok::Exponent { digits: n as usize } && next == e);
            assert(d2.after(cs, tok) =~= d3);
        },
        None => {
            assert(d3 =~= d2);
        },
    }
}

// ------------------------------------------------------------- plain text --

/// Wherever a code has got to, quoted text, a character behind a backslash and the sign
/// of a currency block go on as text; an underscore and what it measures, and a star and
/// what it repeats, each leave a place that shows as one space.
pub proof fn quoted_and_escaped_text_shows_as_it_stands(
    d: DraftView,
    cs: Seq<char>,
    i: int,
    quoted: Seq<char>,
    rest: Seq<char>,
    c: Computed,
    twelve_hour: bool,
)
    requires
        0 <= i < cs.len() <= usize::MAX,
        cs.subrange(i, cs.len() as int) == seq!['"'] + quoted + seq!['"'] + rest || (i + 1
            < cs.len() && (cs[i] == '\\' || cs[i] == '_' || cs[i] == '*')),
        forall|k: int| 0 <= k < quoted.len() ==> #[trigger] quoted[k] != '"',
    ensures
        cs.subrange(i, cs.len() as int) == seq!['"'] + quoted + seq!['"'] + rest ==> d.read(cs, i)
            == d.with_literal(quoted).read(cs, i + quoted.len() + 2),
        cs[i] == '\\' ==> d.read(cs, i) == d.with_literal(seq![cs[i + 1]]).read(cs, i + 2),
        cs[i] == '_' ==> d.read(cs, i) == d.with_part(PartView::Skip).read(cs, i + 2),
        cs[i] == '*' ==> d.read(cs, i) == d.with_part(PartView::Fill(cs[i + 1])).read(cs, i + 2),
        part_text(PartView::Literal(quoted), c, twelve_hour) == quoted,
        part_text(PartView::Skip, c, twelve_hour) == seq![' '],
        part_text(PartView::Fill(cs[i + 1]), c, twelve_hour) == seq![' '],
        part_text(PartView::TextSlot, c, twelve_hour).len() == 0,
        part_text(PartView::Number(NumSpec::blank()), c, twelve_hour) == c.body@,
{
    let tail = cs.subrange(i, cs.len() as int);
    if tail == seq!['"'] + quoted + seq!['"'] + rest {
        let n = quoted.len() as int;
        let whole = seq!['"'] + quoted + seq!['"'] + rest;
        assert(whole.len() == n + 2 + rest.len());
        assert(tail.len() == cs.len() - i);
        assert(whole[0] == '"' && tail[0] == cs[i]);
        assert forall|k: int| i + 1 <= k < i + 1 + n implies #[trigger] cs[k] != '"' by {
            assert(tail[k - i] == cs[k]);
            assert(whole[k - i] == quoted[k - i - 1]);
        }
        assert(whole[n + 1] == '"' && tail[n + 1] == cs[i + n + 1]);
        assert forall|k: int| 0 <= k < n implies cs.subrange(i + 1, i + 1 + n)[k] == quoted[k] by {
            assert(tail[k + 1] == cs[i + 1 + k]);
            assert(whole[k + 1] == quoted[k]);
        }
        lemma_quote(cs, i + 1, i + 1 + n);
        assert(cs.subrange(i + 1, i + 1 + n) =~= quoted);
    } else if cs[i] == '\\' {
        assert(cs.subrange(i + 1, i + 2) =~= seq![cs[i + 1]]);
    }
}

proof fn lemma_quote(cs: Seq<char>, i: int, end: int)
    requires
        0 <= i <= end < cs.len(),
        cs[end] == '"',
        forall|k: int| i <= k < end ==> #[trigger] cs[k] != '"',
    ensures
        find_from(cs, '"', i) == end,
    decreases end - i,
{
    if i < end {
        lemma_quote(cs, i + 1, end);
    }
}

/// The sign of a currency stands between the dollar and the dash of its block.
pub proof fn a_currency_block_shows_its_sign(d: DraftView, sign: Seq<char>, place: Seq<char>)
    requires
        sign.len() > 0,
        snug(sign),
        snug(place) && place.len() > 0,
        forall|k: int| 0 <= k < sign.len() ==> #[trigger] sign[k] != '-',
    ensures
        d.with_bracket(seq!['$'] + sign + seq!['-'] + place) == d.with_literal(ascii_lowered(sign)),
{
    let t = seq!['$'] + sign + seq!['-'] + place;
    assert(snug(t));
    lemma_snug(t);
    let low = ascii_lowered(t);
    assert(low[0] == '$');
    lemma_dollar(t);
    let n = sign.len() as int;
    assert(t[n + 1] == '-');
    assert forall|k: int| 1 <= k < n + 1 implies #[trigger] low[k] != '-' by {
        assert(t[k] == sign[k - 1]);
        assert(ascii_lower(t[k]) != '-');
    }
    lemma_dash(low, 1, n + 1);
    assert(low.subrange(1, n + 1) =~= ascii_lowered(sign));
    let s = ascii_lowered(sign);
    assert(snug(s)) by {
        assert(s[0] == ascii_lower(sign[0]));
        assert(s.last() == ascii_lower(sign.last()));
        assert(!whitespace(sign[0]) && !whitespace(sign.last()));
    }
    lemma_snug(s);
}

proof fn lemma_dash(cs: Seq<char>, i: int, end: int)
    requires
        0 <= i <= end < cs.len(),
        cs[end] == '-',
        forall|k: int| i <= k < end ==> #[trigger] cs[k] != '-',
    ensures
        find_from(cs, '-', i) == end,
    decreases end - i,
{
    if i < end {
        lemma_dash(cs, i + 1, end);
    }
}

/// What begins with a dollar is neither a colour nor a condition nor a time.
proof fn lemma_dollar(t: Seq<char>)
    requires
        t.len() > 0,
        t[0] == '$',
        trimmed(t) == t,
    ensures
        FmtColor::named(t) is None,
        condition_of(t) is None,
        !all_are(ascii_lowered(t), 'h'),
        !all_are(ascii_lowered(t), 'm'),
        !all_are(ascii_lowered(t), 's'),
{
    let low = ascii_lowered(t);
    assert(low[0] == '$');
    reveal_strlit("black");
    reveal_strlit("blue");
    reveal_strlit("cyan");
    reveal_strlit("green");
    reveal_strlit("magenta");
    reveal_strlit("red");
    reveal_strlit("white");
    reveal_strlit("yellow");
    reveal_strlit("color");
    reveal_strlit(">=");
    reveal_strlit("<=");
    reveal_strlit("<>");
    reveal_strlit(">");
    reveal_strlit("<");
    reveal_strlit("=");
    if t.len() >= 2 {
        assert(t.subrange(0, 2)[0] == '$');
    }
    assert(t.subrange(0, 1)[0] == '$');
    if low.len() >= 5 {
        assert(low.subrange(0, 5)[0] == '$');
    }
}

} // verus!
