//! Text as sequences of characters.

use vstd::prelude::*;

verus! {

/// `String::push`: appends the character to the end of the string.
pub assume_specification[ String::push ](s: &mut String, c: char)
    ensures
        final(s)@ == old(s)@.push(c),
;

/// `String::push_str`: appends the string slice to the end of the string.
pub assume_specification[ String::push_str ](s: &mut String, tail: &str)
    ensures
        final(s)@ == old(s)@ + tail@,
;

/// The characters of `s`.
pub fn chars_of(s: &str) -> (out: Vec<char>)
    ensures
        out@ == s@,
{
    let mut out: Vec<char> = Vec::new();
    for c in it: s.chars()
        invariant
            it.seq() == s@,
            out@ == s@.subrange(0, it.index() as int),
    {
        out.push(c);
        assert(out@ =~= s@.subrange(0, it.index() + 1));
    }
    assert(s@.subrange(0, s@.len() as int) =~= s@);
    out
}

/// `cs[from..to]` as a string.
pub fn string_from(cs: &Vec<char>, from: usize, to: usize) -> (s: String)
    requires
        from <= to <= cs@.len(),
    ensures
        s@ == cs@.subrange(from as int, to as int),
{
    let mut s = String::new();
    let mut i: usize = from;
    while i < to
        invariant
            from <= i <= to <= cs@.len(),
            s@ == cs@.subrange(from as int, i as int),
        decreases to - i,
    {
        s.push(cs[i]);
        i = i + 1;
        assert(s@ =~= cs@.subrange(from as int, i as int));
    }
    s
}

/// All of `cs` as a string.
pub fn string_of(cs: &Vec<char>) -> (s: String)
    ensures
        s@ == cs@,
{
    let s = string_from(cs, 0, cs.len());
    assert(cs@.subrange(0, cs@.len() as int) =~= cs@);
    s
}

/// The texts of a list of strings.
pub open spec fn texts(v: Seq<String>) -> Seq<Seq<char>> {
    Seq::new(v.len(), |i: int| v[i]@)
}

/// Whether two texts are the same.
pub fn same_text(a: &str, b: &str) -> (r: bool)
    ensures
        r == (a@ == b@),
{
    let x = chars_of(a);
    is_word(&x, b)
}

/// Where `key` first stands in `keys`, or their number.
pub open spec fn first_at(keys: Seq<Seq<char>>, key: Seq<char>) -> int
    decreases keys.len(),
{
    if keys.len() == 0 {
        0
    } else if first_at(keys.drop_last(), key) < keys.len() - 1 {
        first_at(keys.drop_last(), key)
    } else if keys.last() == key {
        keys.len() - 1
    } else {
        keys.len() as int
    }
}

/// What [`first_at`] finds: the key, with no key like it before.
pub proof fn lemma_first_at(keys: Seq<Seq<char>>, key: Seq<char>)
    ensures
        0 <= first_at(keys, key) <= keys.len(),
        first_at(keys, key) < keys.len() ==> keys[first_at(keys, key)] == key,
        forall|i: int| 0 <= i < first_at(keys, key) ==> #[trigger] keys[i] != key,
        keys.contains(key) <==> first_at(keys, key) < keys.len(),
    decreases keys.len(),
{
    if keys.len() > 0 {
        lemma_first_at(keys.drop_last(), key);
        let f = first_at(keys.drop_last(), key);
        if f < keys.len() - 1 {
            assert(keys[f] == keys.drop_last()[f]);
        }
        assert forall|i: int| 0 <= i < first_at(keys, key) implies #[trigger] keys[i] != key by {
            if i < keys.len() - 1 {
                assert(keys[i] == keys.drop_last()[i]);
            }
        }
        if keys.contains(key) && first_at(keys, key) == keys.len() {
            let i = choose|i: int| 0 <= i < keys.len() && keys[i] == key;
            assert(keys[i] != key);
        }
    }
}

pub fn find_key(keys: &Vec<String>, key: &str) -> (at: usize)
    ensures
        at == first_at(texts(keys@), key@),
{
    let ghost all = texts(keys@);
    let mut i: usize = 0;
    proof {
        lemma_first_at(all, key@);
    }
    while i < keys.len()
        invariant
            i <= keys@.len(),
            all == texts(keys@),
            0 <= first_at(all, key@) <= all.len(),
            first_at(all, key@) < all.len() ==> all[first_at(all, key@)] == key@,
            forall|k: int| 0 <= k < first_at(all, key@) ==> #[trigger] all[k] != key@,
            forall|k: int| 0 <= k < i ==> #[trigger] all[k] != key@,
        decreases keys@.len() - i,
    {
        if same_text(keys[i].as_str(), key) {
            assert(all[i as int] == key@);
            return i;
        }
        assert(all[i as int] != key@);
        i = i + 1;
    }
    i
}

/// Where `key` last stands in `keys`, or -1.
pub open spec fn last_at(keys: Seq<Seq<char>>, key: Seq<char>) -> int
    decreases keys.len(),
{
    if keys.len() == 0 {
        -1
    } else if keys.last() == key {
        keys.len() - 1
    } else {
        last_at(keys.drop_last(), key)
    }
}

pub fn find_last_key(keys: &Vec<String>, key: &String) -> (at: Option<usize>)
    ensures
        match at {
            Some(i) => i < keys@.len() && last_at(texts(keys@), key@) == i,
            None => last_at(texts(keys@), key@) < 0,
        },
{
    let ghost all = texts(keys@);
    let mut i: usize = keys.len();
    assert(all.subrange(0, i as int) =~= all);
    while i > 0
        invariant
            i <= keys@.len(),
            all == texts(keys@),
            last_at(all, key@) == last_at(all.subrange(0, i as int), key@),
        decreases i,
    {
        let ghost t = all.subrange(0, i as int);
        i = i - 1;
        assert(t.drop_last() =~= all.subrange(0, i as int));
        assert(t.last() == keys@[i as int]@);
        if keys[i] == *key {
            return Some(i);
        }
    }
    None
}

/// The texts in the order in which each is first seen.
pub open spec fn distinct(keys: Seq<Seq<char>>) -> Seq<Seq<char>>
    decreases keys.len(),
{
    if keys.len() == 0 {
        Seq::empty()
    } else {
        let before = distinct(keys.drop_last());
        if before.contains(keys.last()) {
            before
        } else {
            before.push(keys.last())
        }
    }
}

/// No text is listed twice, and exactly the texts given are listed.
pub proof fn distinct_lists_each_text_once(keys: Seq<Seq<char>>)
    ensures
        distinct(keys).no_duplicates(),
        distinct(keys).len() <= keys.len(),
        forall|k: Seq<char>| #[trigger] distinct(keys).contains(k) <==> keys.contains(k),
    decreases keys.len(),
{
    if keys.len() > 0 {
        let head = keys.drop_last();
        let before = distinct(head);
        distinct_lists_each_text_once(head);
        assert forall|k: Seq<char>| #[trigger] distinct(keys).contains(k) <==> keys.contains(k) by {
            assert(before.contains(k) <==> head.contains(k));
            if head.contains(k) {
                let i = choose|i: int| 0 <= i < head.len() && head[i] == k;
                assert(keys[i] == k);
                let j = choose|j: int| 0 <= j < before.len() && before[j] == k;
                assert(distinct(keys)[j] == k);
            }
            if keys.contains(k) && !head.contains(k) {
                let i = choose|i: int| 0 <= i < keys.len() && keys[i] == k;
                if i < head.len() {
                    assert(head[i] == k);
                }
                assert(k == keys.last());
                assert(distinct(keys)[before.len() as int] == k);
            }
            if distinct(keys).contains(k) {
                let j = choose|j: int| 0 <= j < distinct(keys).len() && distinct(keys)[j] == k;
                if j < before.len() {
                    assert(before[j] == k);
                } else {
                    assert(k == keys.last());
                    assert(keys[keys.len() - 1] == k);
                }
            }
        }
        if !before.contains(keys.last()) {
            let d = distinct(keys);
            assert forall|i: int, j: int| 0 <= i < d.len() && 0 <= j < d.len() && i != j implies d[i]
                != d[j] by {
                if i < before.len() && j < before.len() {
                    assert(before[i] != before[j]);
                } else if i < before.len() {
                    assert(before.contains(before[i]));
                } else {
                    assert(before.contains(before[j]));
                }
            }
        }
    }
}

/// The character for a decimal digit.
pub open spec fn digit_char(d: int) -> char {
    (48 + d) as char
}

/// The decimal digits of `n`, without leading zeros.
pub open spec fn decimal(n: nat) -> Seq<char>
    decreases n,
{
    if n < 10 {
        seq![digit_char(n as int)]
    } else {
        decimal(n / 10).push(digit_char((n % 10) as int))
    }
}

fn digit_to_char(d: u64) -> (c: char)
    requires
        d < 10,
    ensures
        c == digit_char(d as int),
{
    let b: u8 = 48 + d as u8;
    b as char
}

/// Appends the decimal digits of `n`.
pub fn push_decimal(s: &mut String, n: u64)
    ensures
        final(s)@ == old(s)@ + decimal(n as nat),
    decreases n,
{
    if n < 10 {
        s.push(digit_to_char(n));
    } else {
        push_decimal(s, n / 10);
        s.push(digit_to_char(n % 10));
    }
    assert(s@ =~= old(s)@ + decimal(n as nat));
}

/// Unicode's `White_Space` property.
pub open spec fn whitespace(c: char) -> bool {
    ||| '\u{9}' <= c <= '\u{d}'
    ||| c == ' '
    ||| c == '\u{85}'
    ||| c == '\u{a0}'
    ||| c == '\u{1680}'
    ||| '\u{2000}' <= c <= '\u{200a}'
    ||| c == '\u{2028}'
    ||| c == '\u{2029}'
    ||| c == '\u{202f}'
    ||| c == '\u{205f}'
    ||| c == '\u{3000}'
}

pub fn is_whitespace(c: char) -> (b: bool)
    ensures
        b == whitespace(c),
{
    ('\u{9}' <= c && c <= '\u{d}') || c == ' ' || c == '\u{85}' || c == '\u{a0}' || c
        == '\u{1680}' || ('\u{2000}' <= c && c <= '\u{200a}') || c == '\u{2028}' || c
        == '\u{2029}' || c == '\u{202f}' || c == '\u{205f}' || c == '\u{3000}'
}

/// `s` without the whitespace at its start.
pub open spec fn trim_start(s: Seq<char>) -> Seq<char>
    decreases s.len(),
{
    if s.len() > 0 && whitespace(s[0]) {
        trim_start(s.subrange(1, s.len() as int))
    } else {
        s
    }
}

/// `s` without the whitespace at its end.
pub open spec fn trim_end(s: Seq<char>) -> Seq<char>
    decreases s.len(),
{
    if s.len() > 0 && whitespace(s.last()) {
        trim_end(s.drop_last())
    } else {
        s
    }
}

/// `s` without the whitespace at either end.
pub open spec fn trimmed(s: Seq<char>) -> Seq<char> {
    trim_end(trim_start(s))
}

/// `cs[from..to]` trimmed.
pub fn trim_range(cs: &Vec<char>, from: usize, to: usize) -> (r: Vec<char>)
    requires
        from <= to <= cs@.len(),
    ensures
        r@ == trimmed(cs@.subrange(from as int, to as int)),
{
    let ghost all = cs@.subrange(from as int, to as int);
    let mut a: usize = from;
    assert(cs@.subrange(from as int, to as int) =~= all);
    while a < to && is_whitespace(cs[a])
        invariant
            from <= a <= to <= cs@.len(),
            trim_start(cs@.subrange(a as int, to as int)) == trim_start(all),
        decreases to - a,
    {
        proof {
            let t = cs@.subrange(a as int, to as int);
            assert(t.subrange(1, t.len() as int) =~= cs@.subrange(a + 1, to as int));
        }
        a = a + 1;
    }
    assert(trim_start(all) == cs@.subrange(a as int, to as int));
    let mut b: usize = to;
    while b > a && is_whitespace(cs[b - 1])
        invariant
            a <= b <= to <= cs@.len(),
            trim_end(cs@.subrange(a as int, b as int)) == trim_end(trim_start(all)),
        decreases b - a,
    {
        proof {
            let t = cs@.subrange(a as int, b as int);
            assert(t.drop_last() =~= cs@.subrange(a as int, b - 1));
        }
        b = b - 1;
    }
    let mut r: Vec<char> = Vec::new();
    let mut i: usize = a;
    while i < b
        invariant
            a <= i <= b <= cs@.len(),
            r@ == cs@.subrange(a as int, i as int),
        decreases b - i,
    {
        r.push(cs[i]);
        i = i + 1;
        assert(r@ =~= cs@.subrange(a as int, i as int));
    }
    r
}

/// The ASCII capitals turned small, everything else as it is.
pub open spec fn ascii_lower(c: char) -> char {
    if 'A' <= c <= 'Z' {
        (c as u32 + 32) as char
    } else {
        c
    }
}

/// The ASCII small letters turned capital, everything else as it is.
pub open spec fn ascii_upper(c: char) -> char {
    if 'a' <= c <= 'z' {
        (c as u32 - 32) as char
    } else {
        c
    }
}

pub open spec fn ascii_lowered(s: Seq<char>) -> Seq<char> {
    Seq::new(s.len(), |i: int| ascii_lower(s[i]))
}

pub fn to_ascii_lower(c: char) -> (r: char)
    ensures
        r == ascii_lower(c),
{
    if 'A' <= c && c <= 'Z' {
        let b: u8 = c as u8 + 32;
        b as char
    } else {
        c
    }
}

pub fn to_ascii_upper(c: char) -> (r: char)
    ensures
        r == ascii_upper(c),
{
    if 'a' <= c && c <= 'z' {
        let b: u8 = c as u8 - 32;
        b as char
    } else {
        c
    }
}

pub fn lower_all(cs: &Vec<char>) -> (r: Vec<char>)
    ensures
        r@ == ascii_lowered(cs@),
{
    let mut r: Vec<char> = Vec::new();
    let mut i: usize = 0;
    while i < cs.len()
        invariant
            i <= cs@.len(),
            r@ == ascii_lowered(cs@).subrange(0, i as int),
        decreases cs@.len() - i,
    {
        r.push(to_ascii_lower(cs[i]));
        i = i + 1;
        assert(r@ =~= ascii_lowered(cs@).subrange(0, i as int));
    }
    assert(r@ =~= ascii_lowered(cs@));
    r
}

/// Whether `s` has `word` at position `i`.
pub open spec fn has_at(s: Seq<char>, i: int, word: Seq<char>) -> bool {
    0 <= i && i + word.len() <= s.len() && s.subrange(i, i + word.len()) == word
}

/// Whether `cs` has the characters `w` at position `i`.
pub fn has_chars_at(cs: &Vec<char>, i: usize, w: &Vec<char>) -> (b: bool)
    requires
        i <= cs@.len(),
    ensures
        b == has_at(cs@, i as int, w@),
{
    if w.len() > cs.len() - i {
        return false;
    }
    let mut k: usize = 0;
    while k < w.len()
        invariant
            k <= w@.len(),
            i + w@.len() <= cs.len(),
            forall|j: int| 0 <= j < k ==> cs@[i + j] == w@[j],
        decreases w@.len() - k,
    {
        if cs[i + k] != w[k] {
            assert(cs@.subrange(i as int, i + w@.len())[k as int] != w@[k as int]);
            return false;
        }
        k = k + 1;
    }
    assert(cs@.subrange(i as int, i + w@.len()) =~= w@);
    true
}

/// Whether `cs` has `word` at position `i`.
pub fn is_at(cs: &Vec<char>, i: usize, word: &str) -> (b: bool)
    requires
        i <= cs@.len(),
    ensures
        b == has_at(cs@, i as int, word@),
{
    has_chars_at(cs, i, &chars_of(word))
}

/// The first place from `i` on where `word` stands, or the end of `s`.
pub open spec fn find_word(s: Seq<char>, word: Seq<char>, i: int) -> int
    decreases s.len() - i,
{
    if i < 0 || i >= s.len() {
        s.len() as int
    } else if has_at(s, i, word) {
        i
    } else {
        find_word(s, word, i + 1)
    }
}

/// The first place from `from` on where the characters `w` stand, or the end.
pub fn find_chars(cs: &Vec<char>, w: &Vec<char>, from: usize) -> (at: usize)
    requires
        from <= cs@.len(),
    ensures
        at == find_word(cs@, w@, from as int),
        from <= at <= cs@.len(),
        at < cs@.len() ==> has_at(cs@, at as int, w@),
{
    let mut i: usize = from;
    while i < cs.len() && !has_chars_at(cs, i, w)
        invariant
            from <= i <= cs@.len(),
            find_word(cs@, w@, i as int) == find_word(cs@, w@, from as int),
        decreases cs@.len() - i,
    {
        i = i + 1;
    }
    i
}

/// The first place from `from` on where `word` stands, or the end.
pub fn find_str(cs: &Vec<char>, word: &str, from: usize) -> (at: usize)
    requires
        from <= cs@.len(),
    ensures
        at == find_word(cs@, word@, from as int),
        from <= at <= cs@.len(),
        at < cs@.len() ==> has_at(cs@, at as int, word@),
{
    find_chars(cs, &chars_of(word), from)
}

/// The lowercase form of a text, as Unicode defines it.
pub uninterp spec fn lowercase(s: Seq<char>) -> Seq<char>;

/// `str::to_lowercase`: the lowercase equivalent of the string. Which characters
/// that is is left to Unicode's tables; the claim is that it depends on the text
/// alone.
#[verifier::external_body]
pub(crate) fn to_lowercase(s: &str) -> (r: String)
    ensures
        r@ == lowercase(s@),
{
    s.to_lowercase()
}

/// Whether `word` stands anywhere in `s`.
pub open spec fn has_word(s: Seq<char>, word: Seq<char>) -> bool {
    find_word(s, word, 0) < s.len()
}

pub fn contains_str(cs: &Vec<char>, word: &str) -> (b: bool)
    ensures
        b == has_word(cs@, word@),
{
    find_str(cs, word, 0) < cs.len()
}

/// The first place from `i` on that holds `c`, or the end.
pub open spec fn find_from(s: Seq<char>, c: char, i: int) -> int
    decreases s.len() - i,
{
    if i >= s.len() || i < 0 {
        s.len() as int
    } else if s[i] == c {
        i
    } else {
        find_from(s, c, i + 1)
    }
}

pub fn find(cs: &Vec<char>, c: char, from: usize) -> (at: usize)
    requires
        from <= cs@.len(),
    ensures
        at == find_from(cs@, c, from as int),
        from <= at <= cs@.len(),
        at < cs@.len() ==> cs@[at as int] == c,
{
    let mut i: usize = from;
    while i < cs.len() && cs[i] != c
        invariant
            from <= i <= cs@.len(),
            find_from(cs@, c, i as int) == find_from(cs@, c, from as int),
        decreases cs@.len() - i,
    {
        i = i + 1;
    }
    i
}

/// `cs[from..to]`.
pub fn slice_of(cs: &Vec<char>, from: usize, to: usize) -> (r: Vec<char>)
    requires
        from <= to <= cs@.len(),
    ensures
        r@ == cs@.subrange(from as int, to as int),
{
    let mut r: Vec<char> = Vec::new();
    let mut i: usize = from;
    while i < to
        invariant
            from <= i <= to <= cs@.len(),
            r@ == cs@.subrange(from as int, i as int),
        decreases to - i,
    {
        r.push(cs[i]);
        i = i + 1;
        assert(r@ =~= cs@.subrange(from as int, i as int));
    }
    r
}

/// Appends the characters of `s`.
pub fn push_text(out: &mut Vec<char>, s: &str)
    ensures
        final(out)@ == old(out)@ + s@,
{
    let mut cs = chars_of(s);
    out.append(&mut cs);
}

/// Appends `cs[from..to]`.
pub fn push_range(out: &mut Vec<char>, cs: &Vec<char>, from: usize, to: usize)
    requires
        from <= to <= cs@.len(),
    ensures
        final(out)@ == old(out)@ + cs@.subrange(from as int, to as int),
{
    let mut part = slice_of(cs, from, to);
    out.append(&mut part);
}

/// Whether `cs` is `word`.
pub fn is_word(cs: &Vec<char>, word: &str) -> (b: bool)
    ensures
        b == (cs@ == word@),
{
    let b = is_at(cs, 0, word);
    proof {
        assert(cs@.subrange(0, cs@.len() as int) =~= cs@);
    }
    b && cs.len() == chars_of(word).len()
}

pub open spec fn digit(c: char) -> bool {
    '0' <= c <= '9'
}

pub fn is_digit(c: char) -> (b: bool)
    ensures
        b == digit(c),
{
    '0' <= c && c <= '9'
}

/// The value of a run of decimal digits.
pub open spec fn digits_value(s: Seq<char>) -> nat
    decreases s.len(),
{
    if s.len() == 0 {
        0
    } else {
        digits_value(s.drop_last()) * 10 + (s.last() as nat - 48) as nat
    }
}

pub open spec fn all_digits(s: Seq<char>) -> bool {
    forall|i: int| 0 <= i < s.len() ==> digit(s[i])
}

/// Reads a non-negative whole number of at most `max`: an optional `+` and
/// then one digit or more.
pub open spec fn whole_number(s: Seq<char>, max: nat) -> Option<nat> {
    let body = if s.len() > 0 && s[0] == '+' {
        s.subrange(1, s.len() as int)
    } else {
        s
    };
    if body.len() > 0 && all_digits(body) && digits_value(body) <= max {
        Some(digits_value(body))
    } else {
        None
    }
}

pub fn parse_whole(cs: &Vec<char>, max: u64) -> (r: Option<u64>)
    ensures
        match r {
            Some(n) => whole_number(cs@, max as nat) == Some(n as nat),
            None => whole_number(cs@, max as nat) is None,
        },
{
    let start: usize = if cs.len() > 0 && cs[0] == '+' {
        1
    } else {
        0
    };
    let ghost body = cs@.subrange(start as int, cs@.len() as int);
    assert(start == 0 ==> body =~= cs@);
    if start == cs.len() {
        return None;
    }
    let mut n: u64 = 0;
    let mut i: usize = start;
    let mut over = false;
    while i < cs.len()
        invariant
            start <= i <= cs@.len(),
            body == cs@.subrange(start as int, cs@.len() as int),
            body == if cs@.len() > 0 && cs@[0] == '+' {
                cs@.subrange(1, cs@.len() as int)
            } else {
                cs@
            },
            forall|k: int| 0 <= k < i - start ==> digit(body[k]),
            !over ==> n <= max && n == digits_value(body.subrange(0, i - start)),
            over ==> digits_value(body.subrange(0, i - start)) > max,
        decreases cs@.len() - i,
    {
        let c = cs[i];
        assert(c == body[i - start]);
        if !is_digit(c) {
            assert(!all_digits(body));
            return None;
        }
        proof {
            let t = body.subrange(0, i + 1 - start);
            assert(t.drop_last() =~= body.subrange(0, i - start));
        }
        let d: u32 = c as u32 - 48;
        if !over {
            let wide: u128 = n as u128 * 10 + d as u128;
            if wide > max as u128 {
                over = true;
            } else {
                n = wide as u64;
            }
        }
        i = i + 1;
    }
    assert(body.subrange(0, body.len() as int) =~= body);
    if over {
        None
    } else {
        Some(n)
    }
}

/// Where the run of digits that starts at `i` ends.
pub open spec fn digit_run(s: Seq<char>, i: int) -> int
    decreases s.len() - i,
{
    if 0 <= i < s.len() && digit(s[i]) {
        digit_run(s, i + 1)
    } else {
        i
    }
}

pub fn skip_digits(cs: &Vec<char>, from: usize) -> (to: usize)
    requires
        from <= cs@.len(),
    ensures
        to == digit_run(cs@, from as int),
        from <= to <= cs@.len(),
{
    let mut i: usize = from;
    while i < cs.len() && is_digit(cs[i])
        invariant
            from <= i <= cs@.len(),
            digit_run(cs@, i as int) == digit_run(cs@, from as int),
        decreases cs@.len() - i,
    {
        i = i + 1;
    }
    i
}

/// Where the exponent of a number whose digits end at `j` ends, or -1 where
/// what follows the digits is no exponent.
pub open spec fn exponent_end(s: Seq<char>, j: int) -> int {
    if j < s.len() && s[j] == 'e' {
        let k = if j + 1 < s.len() && (s[j + 1] == '+' || s[j + 1] == '-') {
            j + 2
        } else {
            j + 1
        };
        if digit_run(s, k) > k {
            digit_run(s, k)
        } else {
            -1
        }
    } else {
        j
    }
}

/// Digits with at most one point among or beside them, and then perhaps an
/// exponent, from `i` to the end of `s`.
pub open spec fn decimal_from(s: Seq<char>, i: int) -> bool {
    let a = digit_run(s, i);
    let b = if a < s.len() && s[a] == '.' {
        digit_run(s, a + 1)
    } else {
        a
    };
    (a > i || b > a + 1) && exponent_end(s, b) == s.len()
}

/// What reads as a floating-point number: an optional sign and then `inf`,
/// `infinity`, `nan` or a decimal, letters in either case.
pub open spec fn float_literal(s: Seq<char>) -> bool {
    let t = ascii_lowered(s);
    let i: int = if t.len() > 0 && (t[0] == '+' || t[0] == '-') {
        1
    } else {
        0
    };
    let body = t.subrange(i, t.len() as int);
    body == "inf"@ || body == "infinity"@ || body == "nan"@ || decimal_from(t, i)
}

pub fn is_float_literal(cs: &Vec<char>) -> (b: bool)
    ensures
        b == float_literal(cs@),
{
    let t = lower_all(cs);
    let i: usize = if t.len() > 0 && (t[0] == '+' || t[0] == '-') {
        1
    } else {
        0
    };
    proof {
        reveal_strlit("inf");
        reveal_strlit("nan");
        reveal_strlit("infinity");
    }
    let n: usize = t.len();
    if (n - i == 3 && (is_at(&t, i, "inf") || is_at(&t, i, "nan"))) || (n - i == 8 && is_at(
        &t,
        i,
        "infinity",
    )) {
        return true;
    }
    proof {
        let body = t@.subrange(i as int, n as int);
        assert(body == "inf"@ ==> has_at(t@, i as int, "inf"@));
        assert(body == "nan"@ ==> has_at(t@, i as int, "nan"@));
        assert(body == "infinity"@ ==> has_at(t@, i as int, "infinity"@));
    }
    let a: usize = skip_digits(&t, i);
    let b: usize = if a < n && t[a] == '.' {
        skip_digits(&t, a + 1)
    } else {
        a
    };
    if !(a > i || b - a > 1) {
        return false;
    }
    if b < n && t[b] == 'e' {
        let k: usize = if b + 1 < n && (t[b + 1] == '+' || t[b + 1] == '-') {
            b + 2
        } else {
            b + 1
        };
        let e: usize = skip_digits(&t, k);
        e > k && e == n
    } else {
        b == n
    }
}

// ------------------------------------------------------------------ order --

/// `a` stands before `b` in the order of the characters' scalar values, a prefix
/// before what it is a prefix of.
pub open spec fn text_before(a: Seq<char>, b: Seq<char>) -> bool
    decreases a.len(),
{
    if b.len() == 0 {
        false
    } else if a.len() == 0 {
        true
    } else if a[0] != b[0] {
        a[0] < b[0]
    } else {
        text_before(a.subrange(1, a.len() as int), b.subrange(1, b.len() as int))
    }
}

pub fn is_text_before(a: &str, b: &str) -> (r: bool)
    ensures
        r == text_before(a@, b@),
{
    let x = chars_of(a);
    let y = chars_of(b);
    let n: usize = x.len();
    let m: usize = y.len();
    let mut i: usize = 0;
    assert(x@.subrange(0, n as int) =~= a@);
    assert(y@.subrange(0, m as int) =~= b@);
    while i < n && i < m
        invariant
            i <= n == x@.len(),
            i <= m == y@.len(),
            text_before(x@.subrange(i as int, n as int), y@.subrange(i as int, m as int))
                == text_before(a@, b@),
        decreases n - i,
    {
        let ghost s = x@.subrange(i as int, n as int);
        let ghost t = y@.subrange(i as int, m as int);
        if x[i] != y[i] {
            return x[i] < y[i];
        }
        proof {
            assert(s.subrange(1, s.len() as int) =~= x@.subrange(i + 1, n as int));
            assert(t.subrange(1, t.len() as int) =~= y@.subrange(i + 1, m as int));
        }
        i = i + 1;
    }
    i < m
}

/// The order of texts is strict and total: of two different texts exactly one
/// stands before the other, and standing before is transitive.
pub proof fn text_order_is_total(a: Seq<char>, b: Seq<char>, c: Seq<char>)
    ensures
        !text_before(a, a),
        a != b ==> text_before(a, b) != text_before(b, a),
        text_before(a, b) && text_before(b, c) ==> text_before(a, c),
    decreases a.len() + b.len() + c.len(),
{
    if a.len() > 0 && b.len() > 0 {
        let a1 = a.subrange(1, a.len() as int);
        let b1 = b.subrange(1, b.len() as int);
        if c.len() > 0 {
            text_order_is_total(a1, b1, c.subrange(1, c.len() as int));
        } else {
            text_order_is_total(a1, b1, c);
        }
        if a1 == b1 && a[0] == b[0] {
            assert(a =~= seq![a[0]] + a1);
            assert(b =~= seq![b[0]] + b1);
        }
    } else {
        if a.len() > 0 {
            text_order_is_total(a.subrange(1, a.len() as int), b, c);
        }
        if a.len() == 0 && b.len() == 0 {
            assert(a =~= b);
        }
    }
}

/// The number that decimal digits count.
pub open spec fn digits_count(s: Seq<char>) -> int
    decreases s.len(),
{
    if s.len() == 0 {
        0
    } else {
        10 * digits_count(s.drop_last()) + (s.last() as int - 48)
    }
}

/// A number's digits count it, and none of them stands idle in front.
pub proof fn digits_count_the_number(n: nat)
    ensures
        digits_count(decimal(n)) == n,
        decimal(n).len() > 0,
        n > 0 ==> decimal(n)[0] != '0',
        n == 0 ==> decimal(n) == seq!['0'],
        forall|i: int|
            0 <= i < decimal(n).len() ==> '0' <= #[trigger] decimal(n)[i] && decimal(n)[i] <= '9',
    decreases n,
{
    let s = decimal(n);
    if n < 10 {
        assert(s.drop_last() =~= Seq::<char>::empty());
        assert(digits_count(s.drop_last()) == 0);
    } else {
        let before = decimal(n / 10);
        digits_count_the_number(n / 10);
        assert(s.drop_last() =~= before);
        assert(s[0] == before[0]);
        assert forall|i: int| 0 <= i < s.len() implies '0' <= #[trigger] s[i] && s[i] <= '9' by {
            if i < before.len() {
                assert(s[i] == before[i]);
            }
        }
    }
}

/// Trimming takes the whitespace off both ends and leaves everything between.
pub proof fn trimming_takes_the_whitespace_off_both_ends(a: Seq<char>, s: Seq<char>, b: Seq<char>)
    requires
        forall|i: int| 0 <= i < a.len() ==> whitespace(#[trigger] a[i]),
        forall|i: int| 0 <= i < b.len() ==> whitespace(#[trigger] b[i]),
        s.len() > 0,
        !whitespace(s[0]),
        !whitespace(s.last()),
    ensures
        trimmed(a + s + b) == s,
    decreases a.len() + b.len(),
{
    let all = a + s + b;
    if a.len() > 0 {
        let d = a.subrange(1, a.len() as int);
        assert(all[0] == a[0]);
        assert(all.subrange(1, all.len() as int) =~= d + s + b);
        trimming_takes_the_whitespace_off_both_ends(d, s, b);
    } else {
        assert(all =~= s + b);
        assert(all[0] == s[0]);
        assert(trim_start(all) == all);
        if b.len() > 0 {
            let d = b.drop_last();
            assert(all.last() == b.last());
            assert(all.drop_last() =~= a + s + d);
            trimming_takes_the_whitespace_off_both_ends(a, s, d);
            let rest = a + s + d;
            assert(rest =~= s + d);
            assert(trim_start(rest) == rest);
        } else {
            assert(all =~= s);
        }
    }
}

proof fn lemma_run(s: Seq<char>, i: int, j: int)
    requires
        0 <= i <= j <= s.len(),
        forall|k: int| i <= k < j ==> digit(#[trigger] s[k]),
        j < s.len() ==> !digit(s[j]),
    ensures
        digit_run(s, i) == j,
    decreases j - i,
{
    if i < j {
        assert(digit(s[i]));
        lemma_run(s, i + 1, j);
    }
}

/// Digits are a number, with a sign or without, with a point and digits behind it or
/// without; a second point makes none of them, and neither does a letter.
pub proof fn digits_with_a_point_are_a_number(
    sign: Seq<char>,
    a: Seq<char>,
    b: Seq<char>,
    c: Seq<char>,
)
    requires
        sign.len() == 0 || sign == seq!['-'] || sign == seq!['+'],
        a.len() > 0,
        all_digits(a),
        all_digits(b),
        all_digits(c),
    ensures
        float_literal(sign + a),
        float_literal(sign + a + seq!['.'] + b),
        !float_literal(sign + a + seq!['.'] + b + seq!['.'] + c),
        !float_literal(sign + a + seq!['x'] + b),
{
    reveal_strlit("inf");
    reveal_strlit("infinity");
    reveal_strlit("nan");
    let n = sign.len() as int;
    let m = a.len() as int;
    assert(digit(a[0]));
    let s1 = sign + a;
    lemma_same_low(s1);
    assert forall|k: int| n <= k < n + m implies digit(#[trigger] s1[k]) by {
        assert(s1[k] == a[k - n]);
    }
    lemma_run(s1, n, n + m);
    assert(s1.subrange(n, n + m)[0] == a[0]);
    let s2 = sign + a + seq!['.'] + b;
    let e = b.len() as int;
    lemma_same_low(s2);
    assert forall|k: int| n <= k < n + m implies digit(#[trigger] s2[k]) by {
        assert(s2[k] == a[k - n]);
    }
    assert(s2[n + m] == '.');
    lemma_run(s2, n, n + m);
    assert forall|k: int| n + m + 1 <= k < n + m + 1 + e implies digit(#[trigger] s2[k]) by {
        assert(s2[k] == b[k - n - m - 1]);
    }
    lemma_run(s2, n + m + 1, n + m + 1 + e);
    assert(s2.subrange(n, s2.len() as int)[0] == a[0]);
    let s3 = sign + a + seq!['.'] + b + seq!['.'] + c;
    lemma_same_low(s3);
    assert forall|k: int| n <= k < n + m implies digit(#[trigger] s3[k]) by {
        assert(s3[k] == a[k - n]);
    }
    assert(s3[n + m] == '.');
    lemma_run(s3, n, n + m);
    assert forall|k: int| n + m + 1 <= k < n + m + 1 + e implies digit(#[trigger] s3[k]) by {
        assert(s3[k] == b[k - n - m - 1]);
    }
    assert(s3[n + m + 1 + e] == '.');
    lemma_run(s3, n + m + 1, n + m + 1 + e);
    assert(s3.subrange(n, s3.len() as int)[0] == a[0]);
    let s4 = sign + a + seq!['x'] + b;
    lemma_same_low(s4);
    assert forall|k: int| n <= k < n + m implies digit(#[trigger] s4[k]) by {
        assert(s4[k] == a[k - n]);
    }
    assert(s4[n + m] == 'x');
    lemma_run(s4, n, n + m);
    assert(s4.subrange(n, s4.len() as int)[0] == a[0]);
    assert(a[0] != 'i' && a[0] != 'n');
    if n == 0 {
        assert(s1[0] == a[0] && s2[0] == a[0] && s3[0] == a[0] && s4[0] == a[0]);
    } else {
        assert(s1[0] == sign[0] && s2[0] == sign[0] && s3[0] == sign[0] && s4[0] == sign[0]);
    }
}

/// Text without capitals is not changed by lowering it.
proof fn lemma_same_low(s: Seq<char>)
    ensures
        (forall|k: int| 0 <= k < s.len() ==> !('A' <= #[trigger] s[k] <= 'Z')) ==> ascii_lowered(s)
            == s,
{
    if forall|k: int| 0 <= k < s.len() ==> !('A' <= #[trigger] s[k] <= 'Z') {
        assert(ascii_lowered(s) =~= s);
    }
}

/// Whole numbers are read by their digits, a plus in front or not, up to a limit.
pub proof fn a_whole_number_is_read_by_its_digits(n: nat, max: nat)
    ensures
        whole_number(decimal(n), max) == if n <= max {
            Some(n)
        } else {
            None
        },
        whole_number(seq!['+'] + decimal(n), max) == whole_number(decimal(n), max),
        whole_number(seq!['-'] + decimal(n), max) is None,
        whole_number(Seq::empty(), max) is None,
{
    let d = decimal(n);
    digits_count_the_number(n);
    lemma_counts(d);
    assert(digit(d[0]));
    let p = seq!['+'] + d;
    assert(p.subrange(1, p.len() as int) =~= d);
    let m = seq!['-'] + d;
    assert(!digit(m[0]));
}

proof fn lemma_counts(s: Seq<char>)
    requires
        forall|i: int| 0 <= i < s.len() ==> '0' <= #[trigger] s[i] && s[i] <= '9',
    ensures
        digits_value(s) == digits_count(s),
        all_digits(s),
    decreases s.len(),
{
    if s.len() > 0 {
        let d = s.drop_last();
        assert forall|i: int| 0 <= i < d.len() implies '0' <= #[trigger] d[i] && d[i] <= '9' by {
            assert(d[i] == s[i]);
        }
        lemma_counts(d);
        assert(s.last() == s[s.len() - 1]);
    }
}

/// Texts are ordered by the first character in which they differ, and a text stands
/// before every longer one that begins with it.
pub proof fn texts_are_ordered_by_their_first_difference(
    p: Seq<char>,
    x: char,
    y: char,
    a: Seq<char>,
    b: Seq<char>,
)
    requires
        x != y,
    ensures
        text_before(p + seq![x] + a, p + seq![y] + b) <==> (x as int) < (y as int),
        text_before(p, p + seq![x] + a),
        !text_before(p + seq![x] + a, p),
    decreases p.len(),
{
    let s = p + seq![x] + a;
    let t = p + seq![y] + b;
    if p.len() == 0 {
        assert(s[0] == x && t[0] == y);
    } else {
        let d = p.subrange(1, p.len() as int);
        assert(s[0] == p[0] && t[0] == p[0]);
        assert(s.subrange(1, s.len() as int) =~= d + seq![x] + a);
        assert(t.subrange(1, t.len() as int) =~= d + seq![y] + b);
        texts_are_ordered_by_their_first_difference(d, x, y, a, b);
    }
}

/// The twenty-six letters have two cases, and no other character changes.
pub proof fn letters_have_two_cases(k: int, c: char)
    requires
        0 <= k < 26,
    ensures
        ascii_lower((65 + k) as char) == (97 + k) as char,
        ascii_upper((97 + k) as char) == (65 + k) as char,
        ascii_lower((97 + k) as char) == (97 + k) as char,
        ascii_upper((65 + k) as char) == (65 + k) as char,
        !('A' <= c <= 'Z') ==> ascii_lower(c) == c,
        !('a' <= c <= 'z') ==> ascii_upper(c) == c,
{
}

} // verus!
