//! The bits of HTML that a clipboard table is made of: entities, tags,
//! attributes and inline style declarations.

use crate::table::{hex_digit, hex_value, Rgb};
use crate::text::{
    ascii_lowered, chars_of, decimal, find, find_chars, find_from, find_word, has_at, is_at,
    is_whitespace, is_word, lower_all, parse_whole, push_decimal, push_text, slice_of, trim_range, trimmed,
    whitespace, whole_number,
};
use vstd::prelude::*;

verus! {

// ------------------------------------------------------------- entities --

/// `char::from_u32`: the character with that scalar value, if there is one.
/// Every number below 0x110000 is one but for the surrogates, 0xd800 to 0xdfff.
pub assume_specification[ char::from_u32 ](i: u32) -> (r: Option<char>)
    ensures
        r == scalar(i as nat),
;

/// The character with scalar value `n`.
pub open spec fn scalar(n: nat) -> Option<char> {
    if n < 0xd800 || 0xe000 <= n < 0x110000 {
        Some(n as char)
    } else {
        None
    }
}

/// What a character becomes between tags.
pub open spec fn text_escape(c: char) -> Seq<char> {
    if c == '&' {
        "&amp;"@
    } else if c == '<' {
        "&lt;"@
    } else if c == '>' {
        "&gt;"@
    } else if c == '\n' {
        "<br>"@
    } else {
        seq![c]
    }
}

/// A character by its number.
pub open spec fn reference(c: char) -> Seq<char> {
    "&#"@ + decimal(c as nat) + ";"@
}

/// What a character becomes inside a quoted attribute. With whitespace and
/// apostrophes by their numbers, nothing in a value can be taken for another
/// attribute or for the end of a quoted declaration.
pub open spec fn attr_escape(c: char) -> Seq<char> {
    if c == '&' {
        "&amp;"@
    } else if c == '<' {
        "&lt;"@
    } else if c == '>' {
        "&gt;"@
    } else if c == '"' {
        "&quot;"@
    } else if c == '\'' || whitespace(c) {
        reference(c)
    } else {
        seq![c]
    }
}

pub open spec fn text_escaped(s: Seq<char>) -> Seq<char>
    decreases s.len(),
{
    if s.len() == 0 {
        Seq::empty()
    } else {
        text_escape(s[0]) + text_escaped(s.subrange(1, s.len() as int))
    }
}

/// Every character by its number.
pub open spec fn references(s: Seq<char>) -> Seq<char>
    decreases s.len(),
{
    if s.len() == 0 {
        Seq::empty()
    } else {
        reference(s[0]) + references(s.subrange(1, s.len() as int))
    }
}

/// A text with the whitespace at its end by number.
pub open spec fn end_written(s: Seq<char>) -> Seq<char>
    decreases s.len(),
{
    if s.len() > 0 && whitespace(s.last()) {
        end_written(s.drop_last()) + reference(s.last())
    } else {
        text_escaped(s)
    }
}

/// A text as it is written between tags, where whitespace at the ends would be
/// dropped: there it is written by number.
pub open spec fn text_written(s: Seq<char>) -> Seq<char>
    decreases s.len(),
{
    if s.len() > 0 && whitespace(s[0]) {
        reference(s[0]) + text_written(s.subrange(1, s.len() as int))
    } else {
        end_written(s)
    }
}

pub open spec fn attr_escaped(s: Seq<char>) -> Seq<char>
    decreases s.len(),
{
    if s.len() == 0 {
        Seq::empty()
    } else {
        attr_escape(s[0]) + attr_escaped(s.subrange(1, s.len() as int))
    }
}

/// Appends a character by its number.
fn push_reference(out: &mut Vec<char>, c: char)
    ensures
        final(out)@ == old(out)@ + reference(c),
{
    let mut digits = String::new();
    push_decimal(&mut digits, c as u64);
    push_text(out, "&#");
    push_text(out, digits.as_str());
    push_text(out, ";");
    assert(out@ =~= old(out)@ + reference(c));
}

/// Appends a cell's text, which comes back whole.
pub fn write_text(out: &mut Vec<char>, cs: &Vec<char>)
    ensures
        final(out)@ == old(out)@ + text_written(cs@),
{
    let n: usize = cs.len();
    let ghost before = out@;
    let mut a: usize = 0;
    assert(cs@.subrange(0, n as int) =~= cs@);
    while a < n && is_whitespace(cs[a])
        invariant
            a <= n == cs@.len(),
            out@ + text_written(cs@.subrange(a as int, n as int)) == before + text_written(cs@),
        decreases n - a,
    {
        let ghost so_far = out@;
        let ghost rest = cs@.subrange(a as int, n as int);
        push_reference(out, cs[a]);
        a = a + 1;
        proof {
            assert(rest.subrange(1, rest.len() as int) =~= cs@.subrange(a as int, n as int));
            assert(out@ + text_written(cs@.subrange(a as int, n as int)) =~= so_far
                + text_written(rest));
        }
    }
    let ghost rest = cs@.subrange(a as int, n as int);
    assert(text_written(rest) == end_written(rest));
    let mut b: usize = n;
    assert(cs@.subrange(n as int, n as int) =~= Seq::<char>::empty());
    assert(end_written(rest) + references(cs@.subrange(n as int, n as int)) =~= end_written(rest));
    while b > a && is_whitespace(cs[b - 1])
        invariant
            a <= b <= n == cs@.len(),
            rest == cs@.subrange(a as int, n as int),
            end_written(rest) == end_written(cs@.subrange(a as int, b as int)) + references(
                cs@.subrange(b as int, n as int),
            ),
        decreases b,
    {
        proof {
            let t = cs@.subrange(a as int, b as int);
            let u = cs@.subrange(b as int, n as int);
            let w = cs@.subrange(b - 1, n as int);
            assert(t.drop_last() =~= cs@.subrange(a as int, b - 1));
            assert(w.subrange(1, w.len() as int) =~= u);
            assert(end_written(t.drop_last()) + (reference(t.last()) + references(u))
                =~= end_written(t) + references(u));
        }
        b = b - 1;
    }
    let middle = slice_of(cs, a, b);
    assert(end_written(middle@) == text_escaped(middle@)) by {
        if middle@.len() > 0 {
            assert(middle@.last() == cs@[b - 1]);
        }
    }
    let ghost lead = out@;
    escape_text(out, &middle);
    assert(out@ + references(cs@.subrange(b as int, n as int)) =~= lead + end_written(rest));
    while b < n
        invariant
            b <= n == cs@.len(),
            out@ + references(cs@.subrange(b as int, n as int)) == lead + end_written(rest),
        decreases n - b,
    {
        let ghost so_far = out@;
        let ghost w = cs@.subrange(b as int, n as int);
        push_reference(out, cs[b]);
        b = b + 1;
        proof {
            assert(w.subrange(1, w.len() as int) =~= cs@.subrange(b as int, n as int));
            assert(out@ + references(cs@.subrange(b as int, n as int)) =~= so_far + references(w));
        }
    }
    assert(cs@.subrange(n as int, n as int) =~= Seq::<char>::empty());
    assert(out@ + Seq::<char>::empty() =~= out@);
}

/// Appends `cs` with what would read as markup escaped, line breaks as `<br>`.
fn escape_text(out: &mut Vec<char>, cs: &Vec<char>)
    ensures
        final(out)@ == old(out)@ + text_escaped(cs@),
{
    let mut i: usize = 0;
    assert(cs@.subrange(0, cs@.len() as int) =~= cs@);
    while i < cs.len()
        invariant
            i <= cs@.len(),
            out@ + text_escaped(cs@.subrange(i as int, cs@.len() as int)) == old(out)@
                + text_escaped(cs@),
        decreases cs@.len() - i,
    {
        let c = cs[i];
        let ghost so_far = out@;
        let ghost rest = cs@.subrange(i as int, cs@.len() as int);
        if c == '&' {
            push_text(out, "&amp;");
        } else if c == '<' {
            push_text(out, "&lt;");
        } else if c == '>' {
            push_text(out, "&gt;");
        } else if c == '\n' {
            push_text(out, "<br>");
        } else {
            out.push(c);
        }
        i = i + 1;
        proof {
            assert(rest.subrange(1, rest.len() as int) =~= cs@.subrange(
                i as int,
                cs@.len() as int,
            ));
            assert(out@ =~= so_far + text_escape(c));
            assert(out@ + text_escaped(cs@.subrange(i as int, cs@.len() as int)) =~= so_far
                + text_escaped(rest));
        }
    }
    assert(out@ + Seq::<char>::empty() =~= out@);
}

/// Appends `cs` escaped for a quoted attribute.
pub fn escape_attr(out: &mut Vec<char>, cs: &Vec<char>)
    ensures
        final(out)@ == old(out)@ + attr_escaped(cs@),
{
    let mut i: usize = 0;
    assert(cs@.subrange(0, cs@.len() as int) =~= cs@);
    while i < cs.len()
        invariant
            i <= cs@.len(),
            out@ + attr_escaped(cs@.subrange(i as int, cs@.len() as int)) == old(out)@
                + attr_escaped(cs@),
        decreases cs@.len() - i,
    {
        let c = cs[i];
        let ghost so_far = out@;
        let ghost rest = cs@.subrange(i as int, cs@.len() as int);
        if c == '&' {
            push_text(out, "&amp;");
        } else if c == '<' {
            push_text(out, "&lt;");
        } else if c == '>' {
            push_text(out, "&gt;");
        } else if c == '"' {
            push_text(out, "&quot;");
        } else if c == '\'' || is_whitespace(c) {
            push_reference(out, c);
        } else {
            out.push(c);
        }
        i = i + 1;
        proof {
            assert(rest.subrange(1, rest.len() as int) =~= cs@.subrange(
                i as int,
                cs@.len() as int,
            ));
            assert(out@ =~= so_far + attr_escape(c));
            assert(out@ + attr_escaped(cs@.subrange(i as int, cs@.len() as int)) =~= so_far
                + attr_escaped(rest));
        }
    }
    assert(out@ + Seq::<char>::empty() =~= out@);
}

/// The value of a run of hexadecimal digits.
pub open spec fn hex_run_value(s: Seq<char>) -> nat
    decreases s.len(),
{
    if s.len() == 0 {
        0
    } else {
        hex_run_value(s.drop_last()) * 16 + match hex_value(s.last()) {
            Some(d) => d as nat,
            None => 0,
        }
    }
}

pub open spec fn all_hex(s: Seq<char>) -> bool {
    forall|i: int| 0 <= i < s.len() ==> hex_value(#[trigger] s[i]) is Some
}

/// Reads a hexadecimal number of at most `u32::MAX`: an optional `+` and then
/// one digit or more.
pub open spec fn hex_number(s: Seq<char>) -> Option<nat> {
    let body = if s.len() > 0 && s[0] == '+' {
        s.subrange(1, s.len() as int)
    } else {
        s
    };
    if body.len() > 0 && all_hex(body) && hex_run_value(body) <= u32::MAX {
        Some(hex_run_value(body))
    } else {
        None
    }
}

pub fn parse_hex(cs: &Vec<char>) -> (r: Option<u32>)
    ensures
        match r {
            Some(n) => hex_number(cs@) == Some(n as nat),
            None => hex_number(cs@) is None,
        },
{
    let start: usize = if cs.len() > 0 && cs[0] == '+' {
        1
    } else {
        0
    };
    let ghost body = cs@.subrange(start as int, cs@.len() as int);
    assert(start == 0 ==> body =~= cs@);
    if start == cs.len() {
        return None;
    }
    let mut n: u32 = 0;
    let mut over = false;
    let mut i: usize = start;
    while i < cs.len()
        invariant
            start <= i <= cs@.len(),
            body == cs@.subrange(start as int, cs@.len() as int),
            body == if cs@.len() > 0 && cs@[0] == '+' {
                cs@.subrange(1, cs@.len() as int)
            } else {
                cs@
            },
            forall|k: int| 0 <= k < i - start ==> hex_value(#[trigger] body[k]) is Some,
            !over ==> n == hex_run_value(body.subrange(0, i - start)),
            over ==> hex_run_value(body.subrange(0, i - start)) > u32::MAX,
        decreases cs@.len() - i,
    {
        let c = cs[i];
        assert(c == body[i - start]);
        proof {
            let t = body.subrange(0, i + 1 - start);
            assert(t.drop_last() =~= body.subrange(0, i - start));
        }
        match hex_digit(c) {
            None => {
                assert(!all_hex(body));
                return None;
            },
            Some(d) => {
                if !over {
                    let wide: u64 = n as u64 * 16 + d as u64;
                    if wide > u32::MAX as u64 {
                        over = true;
                    } else {
                        n = wide as u32;
                    }
                }
            },
        }
        i = i + 1;
    }
    assert(body.subrange(0, body.len() as int) =~= body);
    if over {
        None
    } else {
        Some(n)
    }
}

/// The character that an entity name stands for.
pub open spec fn entity(name: Seq<char>) -> Option<char> {
    if name == "amp"@ {
        Some('&')
    } else if name == "lt"@ {
        Some('<')
    } else if name == "gt"@ {
        Some('>')
    } else if name == "quot"@ {
        Some('"')
    } else if name == "apos"@ || name == "#39"@ {
        Some('\'')
    } else if name == "nbsp"@ {
        Some(' ')
    } else if name.len() > 0 && name[0] == '#' {
        let d = name.subrange(1, name.len() as int);
        let n = if d.len() > 0 && (d[0] == 'x' || d[0] == 'X') {
            hex_number(d.subrange(1, d.len() as int))
        } else {
            whole_number(d, u32::MAX as nat)
        };
        match n {
            Some(n) => scalar(n),
            None => None,
        }
    } else {
        None
    }
}

fn entity_char(name: &Vec<char>) -> (r: Option<char>)
    ensures
        r == entity(name@),
{
    if is_word(name, "amp") {
        return Some('&');
    }
    if is_word(name, "lt") {
        return Some('<');
    }
    if is_word(name, "gt") {
        return Some('>');
    }
    if is_word(name, "quot") {
        return Some('"');
    }
    if is_word(name, "apos") || is_word(name, "#39") {
        return Some('\'');
    }
    if is_word(name, "nbsp") {
        return Some(' ');
    }
    if name.len() == 0 || name[0] != '#' {
        return None;
    }
    let ghost d = name@.subrange(1, name@.len() as int);
    let n: Option<u32>;
    if name.len() > 1 && (name[1] == 'x' || name[1] == 'X') {
        let hex = slice_of(name, 2, name.len());
        assert(d.subrange(1, d.len() as int) =~= hex@);
        n = parse_hex(&hex);
    } else {
        let dec = slice_of(name, 1, name.len());
        n = match parse_whole(&dec, u32::MAX as u64) {
            Some(d) => Some(d as u32),
            None => None,
        };
    }
    match n {
        Some(n) => char::from_u32(n),
        None => None,
    }
}

/// The first `;` after `s[0]` and among the first twelve characters, or 0. An
/// unterminated `&` is literal text.
pub open spec fn entity_end(s: Seq<char>) -> int {
    let at = find_from(s, ';', 1);
    if at < s.len() && at < 12 {
        at
    } else {
        0
    }
}

/// Entities replaced by the characters they stand for.
pub open spec fn unescaped(s: Seq<char>) -> Seq<char>
    decreases s.len(),
{
    if s.len() == 0 {
        Seq::empty()
    } else {
        let e = entity_end(s);
        if s[0] == '&' && 0 < e < s.len() && entity(s.subrange(1, e)) is Some {
            seq![entity(s.subrange(1, e))->0] + unescaped(s.subrange(e + 1, s.len() as int))
        } else {
            seq![s[0]] + unescaped(s.subrange(1, s.len() as int))
        }
    }
}

proof fn lemma_find_shift(s: Seq<char>, c: char, i: int, k: int)
    requires
        0 <= i <= s.len(),
        0 <= k,
        i + k <= s.len(),
    ensures
        find_from(s.subrange(i, s.len() as int), c, k) + i == find_from(s, c, i + k),
    decreases s.len() - i - k,
{
    let t = s.subrange(i, s.len() as int);
    if i + k < s.len() {
        assert(t[k] == s[i + k]);
        if t[k] != c {
            lemma_find_shift(s, c, i, k + 1);
        }
    }
}

/// Decode the entity subset a spreadsheet or browser actually emits.
pub fn unescape(cs: &Vec<char>) -> (out: Vec<char>)
    ensures
        out@ == unescaped(cs@),
{
    let n: usize = cs.len();
    let mut out: Vec<char> = Vec::new();
    let mut i: usize = 0;
    assert(cs@.subrange(0, n as int) =~= cs@);
    assert(out@ + unescaped(cs@) =~= unescaped(cs@));
    while i < n
        invariant
            i <= n == cs@.len(),
            out@ + unescaped(cs@.subrange(i as int, n as int)) == unescaped(cs@),
        decreases n - i,
    {
        let c = cs[i];
        let ghost so_far = out@;
        let ghost rest = cs@.subrange(i as int, n as int);
        proof {
            lemma_find_shift(cs@, ';', i as int, 1);
            assert(rest.subrange(1, rest.len() as int) =~= cs@.subrange(i + 1, n as int));
        }
        let mut step: usize = 1;
        let mut shown = c;
        if c == '&' {
            let end: usize = find(cs, ';', i + 1);
            if end < n && end - i < 12 {
                let name = slice_of(cs, i + 1, end);
                assert(rest.subrange(1, end - i) =~= name@);
                match entity_char(&name) {
                    Some(ch) => {
                        shown = ch;
                        step = end - i + 1;
                    },
                    None => {},
                }
            }
        }
        out.push(shown);
        i = i + step;
        proof {
            assert(rest.subrange(step as int, rest.len() as int) =~= cs@.subrange(
                i as int,
                n as int,
            ));
            assert(unescaped(rest) == seq![shown] + unescaped(
                cs@.subrange(i as int, n as int),
            ));
            assert(out@ + unescaped(cs@.subrange(i as int, n as int)) =~= so_far + unescaped(
                rest,
            ));
        }
    }
    assert(out@ + Seq::<char>::empty() =~= out@);
    out
}

// ----------------------------------------------------------------- tags --

/// Whether the end of this tag ends a line.
pub open spec fn breaks_line(tag: Seq<char>) -> bool {
    let t = ascii_lowered(trimmed(tag));
    has_at(t, 0, "br"@) || has_at(t, 0, "/p"@) || has_at(t, 0, "/div"@)
}

/// `s` without its tags, those that end a line leaving a line break. `tag` is
/// what has been read of the tag that is open, if one is.
pub open spec fn untagged(s: Seq<char>, open: bool, tag: Seq<char>) -> Seq<char>
    decreases s.len(),
{
    if s.len() == 0 {
        Seq::empty()
    } else {
        let c = s[0];
        let rest = s.subrange(1, s.len() as int);
        if c == '<' {
            untagged(rest, true, Seq::empty())
        } else if c == '>' && open {
            if breaks_line(tag) {
                seq!['\n'] + untagged(rest, false, Seq::empty())
            } else {
                untagged(rest, false, Seq::empty())
            }
        } else if open {
            untagged(rest, true, tag.push(c))
        } else {
            seq![c] + untagged(rest, false, tag)
        }
    }
}

/// The text that a cell's markup shows.
pub open spec fn inner_text(s: Seq<char>) -> Seq<char> {
    unescaped(trimmed(untagged(s, false, Seq::empty())))
}

fn is_line_break(tag: &Vec<char>) -> (b: bool)
    ensures
        b == breaks_line(tag@),
{
    let t = lower_all(&trim_range(tag, 0, tag.len()));
    assert(tag@.subrange(0, tag@.len() as int) =~= tag@);
    is_at(&t, 0, "br") || is_at(&t, 0, "/p") || is_at(&t, 0, "/div")
}

/// Inner text of a cell: tags removed, entities decoded, `<br>` a newline.
pub fn strip_tags(cs: &Vec<char>) -> (out: Vec<char>)
    ensures
        out@ == inner_text(cs@),
{
    let n: usize = cs.len();
    let mut out: Vec<char> = Vec::new();
    let mut open = false;
    let mut tag: Vec<char> = Vec::new();
    let mut i: usize = 0;
    let ghost whole = untagged(cs@, false, Seq::empty());
    assert(cs@.subrange(0, n as int) =~= cs@);
    assert(out@ + whole =~= whole);
    assert(tag@ =~= Seq::<char>::empty());
    while i < n
        invariant
            i <= n == cs@.len(),
            out@ + untagged(cs@.subrange(i as int, n as int), open, tag@) == whole,
        decreases n - i,
    {
        let c = cs[i];
        let ghost so_far = out@;
        let ghost rest = cs@.subrange(i as int, n as int);
        let ghost tail = cs@.subrange(i + 1, n as int);
        assert(rest.subrange(1, rest.len() as int) =~= tail);
        if c == '<' {
            open = true;
            tag = Vec::new();
            assert(tag@ =~= Seq::<char>::empty());
        } else if c == '>' && open {
            open = false;
            if is_line_break(&tag) {
                out.push('\n');
                assert(out@ + untagged(tail, false, Seq::empty()) =~= so_far + (seq!['\n']
                    + untagged(tail, false, Seq::empty())));
            }
            tag = Vec::new();
            assert(tag@ =~= Seq::<char>::empty());
        } else if open {
            tag.push(c);
        } else {
            out.push(c);
            assert(out@ + untagged(tail, false, tag@) =~= so_far + (seq![c] + untagged(
                tail,
                false,
                tag@,
            )));
        }
        i = i + 1;
    }
    assert(out@ + Seq::<char>::empty() =~= out@);
    let t = trim_range(&out, 0, out.len());
    assert(out@.subrange(0, out@.len() as int) =~= out@);
    unescape(&t)
}

// ----------------------------------------------------------- attributes --

/// Where a bare attribute value that starts at `i` ends.
pub open spec fn bare_end(tag: Seq<char>, i: int) -> int
    decreases tag.len() - i,
{
    if i < 0 || i >= tag.len() || whitespace(tag[i]) || tag[i] == '>' {
        i
    } else {
        bare_end(tag, i + 1)
    }
}

/// The attribute value that starts at `v`, quoted or bare.
pub open spec fn value_at(tag: Seq<char>, v: int) -> Seq<char> {
    if v < tag.len() && (tag[v] == '"' || tag[v] == '\'') {
        tag.subrange(v + 1, find_from(tag, tag[v], v + 1))
    } else {
        tag.subrange(v, bare_end(tag, v))
    }
}

/// The value of the first attribute from `from` on that is spelled `needle`,
/// which ends in `=`. It stands at the start or after whitespace, so that a
/// longer name that ends alike does not count.
pub open spec fn attr_from(tag: Seq<char>, needle: Seq<char>, from: int) -> Option<Seq<char>>
    decreases tag.len() - from,
{
    let low = ascii_lowered(tag);
    let at = find_word(low, needle, from);
    if needle.len() == 0 || from < 0 || !(from <= at < tag.len()) {
        None
    } else if at == 0 || whitespace(tag[at - 1]) {
        Some(value_at(tag, at + needle.len()))
    } else if at + needle.len() <= tag.len() {
        attr_from(tag, needle, at + needle.len())
    } else {
        None
    }
}

pub open spec fn attr_value(tag: Seq<char>, name: Seq<char>) -> Option<Seq<char>> {
    attr_from(tag, name.push('='), 0)
}

/// Value of an attribute on a tag, quoted or bare. `name` is in lower case.
pub fn attr(tag: &Vec<char>, name: &str) -> (r: Option<Vec<char>>)
    ensures
        match r {
            Some(v) => attr_value(tag@, name@) == Some(v@),
            None => attr_value(tag@, name@) is None,
        },
{
    let low = lower_all(tag);
    let mut needle = chars_of(name);
    needle.push('=');
    let w: usize = needle.len();
    let n: usize = tag.len();
    let mut from: usize = 0;
    while from < n
        invariant
            from <= n == tag@.len(),
            low@ == ascii_lowered(tag@),
            needle@ == name@.push('='),
            w == needle@.len(),
            w > 0,
            attr_from(tag@, needle@, from as int) == attr_value(tag@, name@),
        decreases n - from,
    {
        let at: usize = find_chars(&low, &needle, from);
        if at >= n {
            return None;
        }
        let start: usize = at + w;
        if at == 0 || is_whitespace(tag[at - 1]) {
            let v: Vec<char>;
            if start < n && (tag[start] == '"' || tag[start] == '\'') {
                let end: usize = find(tag, tag[start], start + 1);
                v = slice_of(tag, start + 1, end);
            } else {
                let mut end: usize = start;
                while end < n && !is_whitespace(tag[end]) && tag[end] != '>'
                    invariant
                        start <= end <= n == tag@.len(),
                        bare_end(tag@, end as int) == bare_end(tag@, start as int),
                    decreases n - end,
                {
                    end = end + 1;
                }
                v = slice_of(tag, start, end);
            }
            return Some(v);
        }
        from = start;
    }
    None
}

// ---------------------------------------------------------- inline style --

/// The declarations of a style, split at each `;` outside quotes. `quote` is
/// the quote that is open, `cur` what the current declaration holds so far.
pub open spec fn declarations_from(
    s: Seq<char>,
    quote: Option<char>,
    cur: Seq<char>,
) -> Seq<Seq<char>>
    decreases s.len(),
{
    if s.len() == 0 {
        seq![cur]
    } else {
        let c = s[0];
        let rest = s.subrange(1, s.len() as int);
        if c == ';' && quote is None {
            seq![cur] + declarations_from(rest, quote, Seq::empty())
        } else if (c == '\'' || c == '"') && quote == Some(c) {
            declarations_from(rest, None, cur.push(c))
        } else if (c == '\'' || c == '"') && quote is None {
            declarations_from(rest, Some(c), cur.push(c))
        } else {
            declarations_from(rest, quote, cur.push(c))
        }
    }
}

/// The value of the first of `decls` that sets `prop`.
pub open spec fn declared(decls: Seq<Seq<char>>, prop: Seq<char>) -> Option<Seq<char>>
    decreases decls.len(),
{
    if decls.len() == 0 {
        None
    } else {
        let d = decls[0];
        let colon = find_from(d, ':', 0);
        if colon < d.len() && ascii_lowered(trimmed(d.subrange(0, colon))) == prop {
            Some(unescaped(trimmed(d.subrange(colon + 1, d.len() as int))))
        } else {
            declared(decls.subrange(1, decls.len() as int), prop)
        }
    }
}

/// What a tag's `style` attribute declares for `prop`.
pub open spec fn style_value(tag: Seq<char>, prop: Seq<char>) -> Option<Seq<char>> {
    match attr_value(tag, "style"@) {
        Some(style) => declared(declarations_from(style, None, Seq::empty()), prop),
        None => None,
    }
}

spec fn char_views(v: Seq<Vec<char>>) -> Seq<Seq<char>> {
    Seq::new(v.len(), |i: int| v[i]@)
}

fn split_declarations(style: &Vec<char>) -> (out: Vec<Vec<char>>)
    ensures
        char_views(out@) == declarations_from(style@, None, Seq::empty()),
{
    let n: usize = style.len();
    let mut out: Vec<Vec<char>> = Vec::new();
    let mut cur: Vec<char> = Vec::new();
    let mut quote: Option<char> = None;
    let mut i: usize = 0;
    let ghost whole = declarations_from(style@, None, Seq::empty());
    assert(style@.subrange(0, n as int) =~= style@);
    assert(cur@ =~= Seq::<char>::empty());
    assert(char_views(out@) + whole =~= whole);
    while i < n
        invariant
            i <= n == style@.len(),
            char_views(out@) + declarations_from(
                style@.subrange(i as int, n as int),
                quote,
                cur@,
            ) == whole,
        decreases n - i,
    {
        let c = style[i];
        let ghost rest = style@.subrange(i as int, n as int);
        let ghost tail = style@.subrange(i + 1, n as int);
        assert(rest.subrange(1, rest.len() as int) =~= tail);
        if c == ';' && quote.is_none() {
            let ghost before = out@;
            let ghost piece = cur@;
            out.push(cur);
            cur = Vec::new();
            proof {
                assert(cur@ =~= Seq::<char>::empty());
                assert(char_views(out@) =~= char_views(before).push(piece));
                let more = declarations_from(tail, quote, Seq::empty());
                assert(char_views(before) + (seq![piece] + more) =~= char_views(out@) + more);
            }
        } else {
            if c == '\'' || c == '"' {
                match quote {
                    None => {
                        quote = Some(c);
                    },
                    Some(q) => {
                        if q == c {
                            quote = None;
                        }
                    },
                }
            }
            cur.push(c);
        }
        i = i + 1;
    }
    let ghost before = out@;
    let ghost piece = cur@;
    out.push(cur);
    assert(char_views(out@) =~= char_views(before) + seq![piece]);
    out
}

/// One declaration out of a tag's `style` attribute. `prop` is in lower case.
pub fn style_prop(tag: &Vec<char>, prop: &str) -> (r: Option<Vec<char>>)
    ensures
        match r {
            Some(v) => style_value(tag@, prop@) == Some(v@),
            None => style_value(tag@, prop@) is None,
        },
{
    let style = match attr(tag, "style") {
        Some(s) => s,
        None => {
            return None;
        },
    };
    let decls = split_declarations(&style);
    let ghost all = char_views(decls@);
    let mut i: usize = 0;
    assert(all.subrange(0, all.len() as int) =~= all);
    while i < decls.len()
        invariant
            i <= decls@.len(),
            all == char_views(decls@),
            declared(all.subrange(i as int, all.len() as int), prop@) == style_value(
                tag@,
                prop@,
            ),
        decreases decls@.len() - i,
    {
        let d = &decls[i];
        let n: usize = d.len();
        let ghost rest = all.subrange(i as int, all.len() as int);
        proof {
            assert(rest[0] == d@);
            assert(rest.subrange(1, rest.len() as int) =~= all.subrange(
                i + 1,
                all.len() as int,
            ));
        }
        let colon: usize = find(d, ':', 0);
        if colon < n {
            let key = lower_all(&trim_range(d, 0, colon));
            if is_word(&key, prop) {
                let value = trim_range(d, colon + 1, n);
                return Some(unescape(&value));
            }
        }
        i = i + 1;
    }
    None
}

// --------------------------------------------------------------- colours --

/// The numbers up to 255 among the comma-separated parts of `s`.
pub open spec fn bytes_in(s: Seq<char>) -> Seq<u8>
    decreases s.len(),
{
    let k = find_from(s, ',', 0);
    let rest = if 0 <= k < s.len() {
        bytes_in(s.subrange(k + 1, s.len() as int))
    } else {
        Seq::empty()
    };
    match whole_number(trimmed(s.subrange(0, k)), 255) {
        Some(n) => seq![n as u8] + rest,
        None => rest,
    }
}

/// A CSS colour: `#` and six or three hexadecimal digits, `rgb(..)`, or six
/// bare hexadecimal digits.
pub open spec fn css_color(v: Seq<char>) -> Option<Rgb> {
    let t = trimmed(v);
    let n = t.len() as int;
    if n > 0 && t[0] == '#' {
        if n == 4 {
            Rgb::of_hex(seq![t[1], t[1], t[2], t[2], t[3], t[3]])
        } else {
            Rgb::of_hex(t.subrange(1, n))
        }
    } else if has_at(t, 0, "rgb("@) || has_at(t, 0, "RGB("@) {
        if t[n - 1] == ')' && n > 4 {
            let b = bytes_in(t.subrange(4, n - 1));
            if b.len() >= 3 {
                Some(Rgb(b[0], b[1], b[2]))
            } else {
                Rgb::of_hex(t)
            }
        } else {
            None
        }
    } else {
        Rgb::of_hex(t)
    }
}

fn parse_bytes(cs: &Vec<char>, from: usize, to: usize) -> (out: Vec<u8>)
    requires
        from <= to <= cs@.len(),
    ensures
        out@ == bytes_in(cs@.subrange(from as int, to as int)),
{
    let part = slice_of(cs, from, to);
    let n: usize = part.len();
    let mut out: Vec<u8> = Vec::new();
    let mut i: usize = 0;
    let ghost whole = bytes_in(part@);
    assert(part@.subrange(0, n as int) =~= part@);
    assert(out@ + whole =~= whole);
    loop
        invariant_except_break
            i <= n == part@.len(),
            out@ + bytes_in(part@.subrange(i as int, n as int)) == whole,
        ensures
            out@ == whole,
        decreases n - i,
    {
        let k: usize = find(&part, ',', i);
        let ghost so_far = out@;
        let ghost rest = part@.subrange(i as int, n as int);
        proof {
            lemma_find_shift(part@, ',', i as int, 0);
            assert(rest.subrange(0, k - i) =~= part@.subrange(i as int, k as int));
        }
        let word = trim_range(&part, i, k);
        match parse_whole(&word, 255) {
            Some(b) => out.push(b as u8),
            None => {},
        }
        if k >= n {
            assert(out@ =~= so_far + bytes_in(rest));
            break;
        }
        proof {
            assert(rest.subrange(k - i + 1, rest.len() as int) =~= part@.subrange(
                k + 1,
                n as int,
            ));
            assert(out@ + bytes_in(part@.subrange(k + 1, n as int)) =~= so_far + bytes_in(rest));
        }
        i = k + 1;
    }
    out
}

pub fn parse_css_color(v: &Vec<char>) -> (r: Option<Rgb>)
    ensures
        r == css_color(v@),
{
    let t = trim_range(v, 0, v.len());
    assert(v@.subrange(0, v@.len() as int) =~= v@);
    let n: usize = t.len();
    proof {
        reveal_strlit("rgb(");
        reveal_strlit("RGB(");
    }
    if n > 0 && t[0] == '#' {
        if n == 4 {
            let mut full: Vec<char> = Vec::new();
            full.push(t[1]);
            full.push(t[1]);
            full.push(t[2]);
            full.push(t[2]);
            full.push(t[3]);
            full.push(t[3]);
            assert(full@ =~= seq![t@[1], t@[1], t@[2], t@[2], t@[3], t@[3]]);
            return Rgb::from_hex(&full);
        }
        return Rgb::from_hex(&slice_of(&t, 1, n));
    }
    if is_at(&t, 0, "rgb(") || is_at(&t, 0, "RGB(") {
        if n <= 4 || t[n - 1] != ')' {
            return None;
        }
        let parts = parse_bytes(&t, 4, n - 1);
        if parts.len() >= 3 {
            return Some(Rgb(parts[0], parts[1], parts[2]));
        }
    }
    Rgb::from_hex(&t)
}

} // verus!
