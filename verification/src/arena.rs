//! String interning arena.
//!
//! Text columns are overwhelmingly low-cardinality. Strings are interned into one
//! contiguous byte buffer and addressed by a 4-byte [`StrId`], so a text column
//! costs four bytes per cell plus one copy of each distinct string.
//!
//! Text that formulas produce goes into an interner of its own, whose ids carry
//! [`FORMULA_TEXT_TAG`] and so never collide with an arena's.

use crate::capacity::{at_most_max, capacity_of, capped_mul, lemma_capped_factor, shrink};
use crate::index::{latest, mix, mixed, HashIndex, TextIndex, HASH_SEED};
use crate::value::StrId;
use vstd::layout::size_of;
use vstd::prelude::*;
use vstd::slice::slice_subrange;
use vstd::utf8::{
    decode_utf8, encode_utf8, encode_utf8_decode_utf8, encode_utf8_valid_utf8, valid_utf8,
};

verus! {

/// `std::str::from_utf8`: the text that the bytes encode, and nothing where they
/// are not valid UTF-8.
#[verifier::external_body]
fn text_of(bytes: &[u8]) -> (r: Option<&str>)
    ensures
        match r {
            Some(s) => valid_utf8(bytes@) && s@ == decode_utf8(bytes@),
            None => !valid_utf8(bytes@),
        },
{
    std::str::from_utf8(bytes).ok()
}

// ------------------------------------------------------------ formula text --

/// High bit of a [`StrId`] marking it as formula-produced.
pub const FORMULA_TEXT_TAG: u32 = 0x8000_0000;

/// Hard ceiling on retained formula-result text: 64 MiB.
pub const FORMULA_TEXT_BUDGET: usize = 0x400_0000;

/// The bytes that some texts take.
pub open spec fn text_bytes(v: Seq<Seq<char>>) -> nat
    decreases v.len(),
{
    if v.len() == 0 {
        0
    } else {
        text_bytes(v.drop_last()) + encode_utf8(v.last()).len()
    }
}

/// The append-only, deduplicating interner of formula results.
///
/// What it retains is bounded by the distinct results and by the budget, never by
/// the number of cells.
pub struct FormulaText {
    texts: TextIndex,
    bytes: usize,
}

impl View for FormulaText {
    type V = Seq<Seq<char>>;

    closed spec fn view(&self) -> Seq<Seq<char>> {
        self.texts@
    }
}

/// The id of the formula text with index `i`.
pub open spec fn tagged(i: int) -> StrId {
    StrId((FORMULA_TEXT_TAG + i) as u32)
}

impl FormulaText {
    pub closed spec fn wf(self) -> bool {
        &&& self.texts.wf()
        &&& self.bytes == text_bytes(self@)
        &&& self.bytes <= FORMULA_TEXT_BUDGET
        &&& self@.len() <= FORMULA_TEXT_TAG
    }

    /// No text is kept twice, and all of them together are within the budget.
    pub proof fn texts_are_kept_once_within_the_budget(self)
        requires
            self.wf(),
        ensures
            self@.no_duplicates(),
            text_bytes(self@) <= FORMULA_TEXT_BUDGET,
            self@.len() <= FORMULA_TEXT_TAG,
    {
        self.texts.lemma_distinct();
    }

    pub fn new() -> (r: FormulaText)
        ensures
            r.wf(),
            r@ == Seq::<Seq<char>>::empty(),
    {
        FormulaText { texts: TextIndex::new(), bytes: 0 }
    }

    /// Intern a formula result, returning a tagged id. `None` only when the text
    /// is not there yet and the budget is exhausted.
    pub fn intern_formula_text(&mut self, s: &str) -> (r: Option<StrId>)
        requires
            old(self).wf(),
        ensures
            final(self).wf(),
            match r {
                Some(id) => exists|i: int|
                    {
                        &&& 0 <= i < final(self)@.len()
                        &&& #[trigger] tagged(i) == id
                        &&& final(self)@[i] == s@
                    },
                None => true,
            },
            r is None <==> !old(self)@.contains(s@) && (text_bytes(old(self)@) + encode_utf8(
                s@,
            ).len() > FORMULA_TEXT_BUDGET || old(self)@.len() >= FORMULA_TEXT_TAG),
            final(self)@ == if r is None || old(self)@.contains(s@) {
                old(self)@
            } else {
                old(self)@.push(s@)
            },
    {
        let key = s.to_owned();
        match self.texts.find(&key) {
            Some(i) => {
                assert(self@.contains(s@));
                assert(tagged(i as int) == StrId((FORMULA_TEXT_TAG + i) as u32));
                return Some(StrId(FORMULA_TEXT_TAG + i as u32));
            },
            None => {},
        }
        let n: usize = self.texts.len();
        let len: usize = s.as_bytes().len();
        if len > FORMULA_TEXT_BUDGET - self.bytes || n >= FORMULA_TEXT_TAG as usize {
            return None;
        }
        let ghost had = self@;
        self.texts.add(key);
        self.bytes = self.bytes + len;
        proof {
            assert(self@.drop_last() =~= had);
            assert(self@[n as int] == s@);
            assert(tagged(n as int) == StrId((FORMULA_TEXT_TAG + n) as u32));
        }
        Some(StrId(FORMULA_TEXT_TAG + n as u32))
    }

    /// Resolve a tagged id. `None` for untagged ids, so callers can chain.
    pub fn resolve_formula_text(&self, id: StrId) -> (r: Option<&str>)
        ensures
            match r {
                Some(s) => id.0 >= FORMULA_TEXT_TAG && id.0 - FORMULA_TEXT_TAG < self@.len() && s@
                    == self@[id.0 - FORMULA_TEXT_TAG],
                None => id.0 < FORMULA_TEXT_TAG || id.0 - FORMULA_TEXT_TAG >= self@.len(),
            },
    {
        if id.0 < FORMULA_TEXT_TAG {
            return None;
        }
        let i: usize = (id.0 - FORMULA_TEXT_TAG) as usize;
        if i < self.texts.len() {
            Some(self.texts.get(i).as_str())
        } else {
            None
        }
    }

    /// `(distinct strings, bytes retained)`.
    pub fn formula_text_stats(&self) -> (r: (usize, usize))
        requires
            self.wf(),
        ensures
            r.0 == self@.len(),
            r.1 == text_bytes(self@),
    {
        (self.texts.len(), self.bytes)
    }
}

// ------------------------------------------------------------------ arena --

pub open spec fn byte_hash(s: Seq<u8>) -> u64
    decreases s.len(),
{
    if s.len() == 0 {
        HASH_SEED
    } else {
        mixed(byte_hash(s.drop_last()), s.last() as u64)
    }
}

fn hash_bytes(s: &[u8]) -> (h: u64)
    ensures
        h == byte_hash(s@),
{
    let mut h: u64 = HASH_SEED;
    let n: usize = s.len();
    let mut i: usize = 0;
    while i < n
        invariant
            i <= n == s@.len(),
            h == byte_hash(s@.subrange(0, i as int)),
        decreases n - i,
    {
        assert(s@.subrange(0, i + 1).drop_last() =~= s@.subrange(0, i as int));
        h = mix(h, s[i] as u64);
        i = i + 1;
    }
    assert(s@.subrange(0, n as int) =~= s@);
    h
}

/// Append-only interner.
#[derive(Debug)]
pub struct StringArena {
    /// All string bytes back to back.
    buf: Vec<u8>,
    /// (start, len) into `buf`, indexed by `StrId`.
    spans: Vec<(u32, u32)>,
    /// The strings from `base` on, by their bytes.
    index: HashIndex,
    base: usize,
}

#[verifier::ext_equal]
pub ghost struct ArenaView {
    pub buf: Seq<u8>,
    pub spans: Seq<(u32, u32)>,
    /// The first string that interning finds again.
    pub base: nat,
}

impl ArenaView {
    pub open spec fn empty() -> ArenaView {
        ArenaView { buf: Seq::empty(), spans: Seq::empty(), base: 0 }
    }

    /// String `i` lies in the buffer.
    pub open spec fn in_range(self, i: int) -> bool {
        self.spans[i].0 + self.spans[i].1 <= self.buf.len()
    }

    /// Every string lies in the buffer.
    pub open spec fn sound(self) -> bool {
        forall|i: int| 0 <= i < self.spans.len() ==> #[trigger] self.in_range(i)
    }

    pub open spec fn bytes_at(self, i: int) -> Seq<u8> {
        self.buf.subrange(self.spans[i].0 as int, self.spans[i].0 + self.spans[i].1)
    }

    /// String `i` is one that interning finds again, and has these bytes.
    pub open spec fn holds_at(self, i: int, b: Seq<u8>) -> bool {
        self.base <= i < self.spans.len() && self.bytes_at(i) == b
    }

    /// Interning finds these bytes again.
    pub open spec fn knows(self, b: Seq<u8>) -> bool {
        exists|i: int| #[trigger] self.holds_at(i, b)
    }

    /// One more string can be stored: its bytes fit, and an id is free for it.
    pub open spec fn has_room(self, b: Seq<u8>) -> bool {
        self.buf.len() + b.len() <= u32::MAX && self.spans.len() < FORMULA_TEXT_TAG
    }

    /// There is room for the bytes, the spans, and what finds a string again.
    pub open spec fn fits(self, text: usize, spans: usize, table: usize) -> bool {
        &&& text >= self.buf.len()
        &&& spans >= self.spans.len()
        &&& table >= self.spans.len() - self.base
    }

    /// The arena, and `more` bytes besides, take `n`: the bytes of what there is
    /// room for, and the strings once more for their keys.
    pub open spec fn takes(self, more: int, n: usize) -> bool {
        exists|text: usize, spans: usize, table: usize| #[trigger]
            self.fits(text, spans, table) && n == at_most_max(
                more + bytes_for(text, spans, table, self.buf.len() as int),
            )
    }

    /// No two of the strings that interning finds again are the same.
    pub open spec fn deduplicated(self) -> bool {
        forall|i: int, j: int|
            self.base <= i < j < self.spans.len() ==> #[trigger] self.bytes_at(i)
                != #[trigger] self.bytes_at(j)
    }

    pub open spec fn appended(self, b: Seq<u8>) -> ArenaView {
        ArenaView {
            buf: self.buf + b,
            spans: self.spans.push((self.buf.len() as u32, b.len() as u32)),
            base: self.base,
        }
    }

    /// Interning gives `after` and an id: the one at which the string is found, or a
    /// new one with the string behind all others.
    pub open spec fn interns(self, b: Seq<u8>, after: ArenaView, id: StrId) -> bool {
        if self.knows(b) {
            after == self && self.holds_at(id.0 as int, b)
        } else {
            after == self.appended(b) && id.0 == self.spans.len()
        }
    }

    /// As it is written out and read back in: the dedup index is not rebuilt.
    pub open spec fn rebuilt(self) -> ArenaView {
        ArenaView { buf: self.buf, spans: self.spans, base: self.spans.len() }
    }

    /// What an id stands for in the arena alone.
    pub open spec fn resolved(self, id: StrId) -> Option<Seq<char>> {
        if id.0 < FORMULA_TEXT_TAG && id.0 < self.spans.len() && valid_utf8(
            self.bytes_at(id.0 as int),
        ) {
            Some(decode_utf8(self.bytes_at(id.0 as int)))
        } else {
            None
        }
    }

    /// What an id stands for: tagged ids belong to the formula results.
    pub open spec fn resolved_with(self, id: StrId, formulas: Seq<Seq<char>>) -> Option<Seq<char>> {
        if id.0 >= FORMULA_TEXT_TAG {
            if id.0 - FORMULA_TEXT_TAG < formulas.len() {
                Some(formulas[id.0 - FORMULA_TEXT_TAG])
            } else {
                None
            }
        } else {
            self.resolved(id)
        }
    }
}

impl View for StringArena {
    type V = ArenaView;

    closed spec fn view(&self) -> ArenaView {
        ArenaView { buf: self.buf@, spans: self.spans@, base: self.base as nat }
    }
}

/// What an arena of `held` string bytes takes, given the room it has. An entry of the
/// table is counted as a key with its id and what an entry costs besides.
pub open spec fn bytes_for(text: usize, spans: usize, table: usize, held: int) -> int {
    text + spans * size_of::<(u32, u32)>() + table * (size_of::<(Box<str>, StrId)>() + 16) + held
}

pub(crate) proof fn lemma_bytes_for(text: usize, spans: usize, table: usize, held: int)
    requires
        held >= 0,
    ensures
        bytes_for(text, spans, table, held) >= 0,
{
    let span = size_of::<(u32, u32)>() as int;
    let entry = (size_of::<(Box<str>, StrId)>() + 16) as int;
    assert(spans * span >= 0) by (nonlinear_arith)
        requires
            span >= 0,
    ;
    assert(table * entry >= 0) by (nonlinear_arith)
        requires
            entry >= 0,
    ;
}

pub fn arena_bytes(text: usize, spans: usize, table: usize, held: usize) -> (n: usize)
    ensures
        n == at_most_max(bytes_for(text, spans, table, held as int)),
{
    let span: usize = std::mem::size_of::<(u32, u32)>();
    let entry: usize = std::mem::size_of::<(Box<str>, StrId)>().saturating_add(16);
    proof {
        lemma_capped_factor(table as int, (size_of::<(Box<str>, StrId)>() + 16) as int);
        lemma_bytes_for(0, spans, 0, 0);
        lemma_bytes_for(0, 0, table, 0);
    }
    text.saturating_add(capped_mul(spans, span)).saturating_add(
        capped_mul(table, entry),
    ).saturating_add(held)
}

/// What both answers about an id have in common.
pub open spec fn answers(r: Option<&str>, want: Option<Seq<char>>) -> bool {
    match r {
        Some(s) => want == Some(s@),
        None => want is None,
    }
}

impl Default for StringArena {
    fn default() -> (r: StringArena)
        ensures
            r.wf(),
            r@ == ArenaView::empty(),
    {
        StringArena::new()
    }
}

impl Clone for StringArena {
    fn clone(&self) -> (r: StringArena)
        ensures
            r@ == self@,
            self.wf() ==> r.wf(),
    {
        let mut buf: Vec<u8> = Vec::with_capacity(self.buf.len());
        buf.extend_from_slice(self.buf.as_slice());
        let mut spans: Vec<(u32, u32)> = Vec::with_capacity(self.spans.len());
        let mut i: usize = 0;
        while i < self.spans.len()
            invariant
                i <= self.spans@.len(),
                spans@ == self.spans@.subrange(0, i as int),
            decreases self.spans@.len() - i,
        {
            spans.push(self.spans[i]);
            i = i + 1;
            assert(spans@ =~= self.spans@.subrange(0, i as int));
        }
        assert(self.spans@.subrange(0, self.spans@.len() as int) =~= self.spans@);
        assert(buf@ =~= self.buf@);
        StringArena { buf, spans, index: self.index.copy(), base: self.base }
    }
}

impl StringArena {
    /// The index finds the strings from `base` on; none of them is there twice.
    pub closed spec fn wf(self) -> bool {
        &&& self.index.wf()
        &&& self.base <= self.spans@.len()
        &&& self.base < self.spans@.len() ==> self.spans@.len() <= FORMULA_TEXT_TAG
        &&& self.index@.len() == self.spans@.len() - self.base
        &&& forall|k: int|
            0 <= k < self.index@.len() ==> #[trigger] self.index@[k] == byte_hash(
                self@.bytes_at(self.base + k),
            )
        &&& self@.deduplicated()
        &&& forall|k: int|
            self.base <= k < self.spans@.len() ==> #[trigger] self@.in_range(k)
    }

    /// No string is kept twice.
    pub proof fn strings_are_kept_once(self)
        requires
            self.wf(),
        ensures
            self@.deduplicated(),
            self@.base <= self@.spans.len(),
    {
    }

    pub fn new() -> (r: StringArena)
        ensures
            r.wf(),
            r@ == ArenaView::empty(),
    {
        StringArena { buf: Vec::new(), spans: Vec::new(), index: HashIndex::new(), base: 0 }
    }

    pub fn with_capacity(bytes: usize, strings: usize) -> (r: StringArena)
        ensures
            r.wf(),
            r@ == ArenaView::empty(),
    {
        StringArena {
            buf: Vec::with_capacity(bytes),
            spans: Vec::with_capacity(strings),
            index: HashIndex::new(),
            base: 0,
        }
    }

    /// Whether string `i` has these bytes.
    fn is_bytes(&self, i: usize, b: &[u8]) -> (r: bool)
        requires
            i < self.spans@.len(),
            self@.in_range(i as int),
        ensures
            r == (self@.bytes_at(i as int) == b@),
    {
        let start: usize = self.spans[i].0 as usize;
        let len: usize = self.spans[i].1 as usize;
        let ghost mine = self@.bytes_at(i as int);
        if len != b.len() {
            return false;
        }
        let total: usize = self.buf.len();
        let mut k: usize = 0;
        while k < len
            invariant
                k <= len == b@.len(),
                start + len <= total == self.buf@.len(),
                mine == self@.bytes_at(i as int),
                mine == self.buf@.subrange(start as int, start + len),
                forall|j: int| 0 <= j < k ==> mine[j] == b@[j],
            decreases len - k,
        {
            assert(mine[k as int] == self.buf@[start + k]);
            if self.buf[start + k] != b[k] {
                return false;
            }
            k = k + 1;
        }
        assert(mine =~= b@);
        true
    }

    /// Where the bytes stand among the strings that interning finds again.
    fn find(&self, b: &[u8], h: u64) -> (at: Option<usize>)
        requires
            self.wf(),
            h == byte_hash(b@),
        ensures
            match at {
                Some(i) => self@.holds_at(i as int, b@),
                None => !self@.knows(b@),
            },
    {
        let mut at = self.index.newest(h);
        let total: usize = self.spans.len();
        let ghost mut end: int = self.index@.len() as int;
        loop
            invariant
                self.wf(),
                total == self.spans@.len(),
                h == byte_hash(b@),
                0 <= end <= self.index@.len(),
                latest(self.index@, h, end, at),
                forall|k: int|
                    self.base + end <= k < self.spans@.len() ==> #[trigger] self@.bytes_at(k)
                        != b@,
            decreases end,
        {
            match at {
                Some(k) => {
                    let i: usize = self.base + k;
                    assert(self@.in_range(i as int));
                    if self.is_bytes(i, b) {
                        assert(self@.holds_at(i as int, b@));
                        return Some(i);
                    }
                    proof {
                        assert forall|j: int|
                            self.base + k <= j < self.spans@.len() implies #[trigger] self@.bytes_at(
                            j,
                        ) != b@ by {
                            if i < j < self.base + end {
                                assert(self.index@[j - self.base] != h);
                                assert(self.index@[j - self.base] == byte_hash(
                                    self@.bytes_at(self.base + (j - self.base)),
                                ));
                            }
                        }
                        assert(self.index@[k as int] == h);
                        end = k as int;
                    }
                    at = self.index.older(k);
                },
                None => {
                    proof {
                        assert forall|j: int| !(#[trigger] self@.holds_at(j, b@)) by {
                            if self.base <= j < self.spans@.len() {
                                if j < self.base + end {
                                    assert(self.index@[j - self.base] != h);
                                    assert(self.index@[j - self.base] == byte_hash(
                                        self@.bytes_at(self.base + (j - self.base)),
                                    ));
                                }
                                assert(self@.bytes_at(j) != b@);
                            }
                        }
                    }
                    return None;
                },
            }
        }
    }

    /// Intern `s`, returning an existing id when the string is already present.
    pub fn intern(&mut self, s: &str) -> (id: StrId)
        requires
            old(self).wf(),
            old(self)@.knows(encode_utf8(s@)) || old(self)@.has_room(encode_utf8(s@)),
        ensures
            final(self).wf(),
            old(self)@.sound() ==> final(self)@.sound(),
            old(self)@.interns(encode_utf8(s@), final(self)@, id),
    {
        let bytes = s.as_bytes();
        let ghost b = encode_utf8(s@);
        let h: u64 = hash_bytes(bytes);
        match self.find(bytes, h) {
            Some(i) => {
                return StrId(i as u32);
            },
            None => {},
        }
        let ghost was = self@;
        let start: u32 = self.buf.len() as u32;
        let len: u32 = bytes.len() as u32;
        let id: u32 = self.spans.len() as u32;
        self.buf.extend_from_slice(bytes);
        self.spans.push((start, len));
        self.index.push(h);
        proof {
            assert(self.buf@ =~= was.buf + b);
            assert(self@ =~= was.appended(b));
            let now = self@;
            let n = was.spans.len() as int;
            assert(now.bytes_at(n) =~= b);
            assert forall|k: int| 0 <= k < n && was.in_range(k) implies now.bytes_at(k)
                == was.bytes_at(k) && now.in_range(k) by {
                assert(now.bytes_at(k) =~= was.bytes_at(k));
            }
            assert forall|k: int|
                self.base <= k < self.spans@.len() implies #[trigger] now.in_range(k) by {
                if k < n {
                    assert(was.in_range(k));
                }
            }
            assert forall|k: int| 0 <= k < self.index@.len() implies #[trigger] self.index@[k]
                == byte_hash(now.bytes_at(self.base + k)) by {
                if k < n - self.base {
                    assert(was.in_range(self.base + k));
                    assert(old(self).index@[k] == byte_hash(was.bytes_at(self.base + k)));
                }
            }
            assert forall|i: int, j: int|
                now.base <= i < j < now.spans.len() implies #[trigger] now.bytes_at(i)
                != #[trigger] now.bytes_at(j) by {
                assert(was.in_range(i));
                if j < n {
                    assert(was.in_range(j));
                    assert(was.bytes_at(i) != was.bytes_at(j));
                } else {
                    assert(!was.holds_at(i, b));
                }
            }
            if was.sound() {
                assert forall|i: int| 0 <= i < now.spans.len() implies #[trigger] now.in_range(
                    i,
                ) by {
                    if i < n {
                        assert(was.in_range(i));
                    }
                }
            }
        }
        StrId(id)
    }

    /// Whether every span lies in the buffer, as it must before an id of a loaded
    /// arena is resolved.
    pub fn is_sound(&self) -> (b: bool)
        ensures
            b == self@.sound(),
    {
        let total: u64 = self.buf.len() as u64;
        let mut i: usize = 0;
        while i < self.spans.len()
            invariant
                i <= self.spans@.len(),
                total == self.buf@.len(),
                forall|k: int| 0 <= k < i ==> #[trigger] self@.in_range(k),
            decreases self.spans@.len() - i,
        {
            let end: u64 = self.spans[i].0 as u64 + self.spans[i].1 as u64;
            if end > total {
                assert(!self@.in_range(i as int));
                return false;
            }
            assert(self@.in_range(i as int));
            i = i + 1;
        }
        true
    }

    /// Resolve one of the arena's own ids.
    fn own(&self, id: StrId) -> (r: Option<&str>)
        requires
            self@.sound(),
        ensures
            answers(r, self@.resolved(id)),
    {
        if id.0 >= FORMULA_TEXT_TAG {
            return None;
        }
        let i: usize = id.0 as usize;
        if i >= self.spans.len() {
            return None;
        }
        assert(self@.in_range(i as int));
        let start: usize = self.spans[i].0 as usize;
        let len: usize = self.spans[i].1 as usize;
        let total: usize = self.buf.len();
        assert(start + len <= total);
        text_of(slice_subrange(self.buf.as_slice(), start, start + len))
    }

    /// Resolve an id back to its string. A tagged id belongs to the formula results
    /// and is read there, so every arena displays formula text it has never seen.
    pub fn resolve<'a>(&'a self, id: StrId, formulas: &'a FormulaText) -> (r: Option<&'a str>)
        requires
            self@.sound(),
        ensures
            answers(r, self@.resolved_with(id, formulas@)),
    {
        if id.0 >= FORMULA_TEXT_TAG {
            return formulas.resolve_formula_text(id);
        }
        self.own(id)
    }

    /// Resolve, falling back to an empty string for unknown ids.
    pub fn resolve_or_empty<'a>(&'a self, id: StrId, formulas: &'a FormulaText) -> (r: &'a str)
        requires
            self@.sound(),
        ensures
            r@ == match self@.resolved_with(id, formulas@) {
                Some(s) => s,
                None => Seq::<char>::empty(),
            },
    {
        match self.resolve(id, formulas) {
            Some(s) => s,
            None => {
                proof {
                    reveal_strlit("");
                    assert(""@ =~= Seq::<char>::empty());
                }
                ""
            },
        }
    }

    /// Number of interned strings.
    pub fn len(&self) -> (n: usize)
        ensures
            n == self@.spans.len(),
    {
        self.spans.len()
    }

    pub fn is_empty(&self) -> (b: bool)
        ensures
            b == (self@.spans.len() == 0),
    {
        self.spans.len() == 0
    }

    /// Total bytes of string data, excluding index overhead.
    pub fn data_bytes(&self) -> (n: usize)
        ensures
            n == self@.buf.len(),
    {
        self.buf.len()
    }

    /// Approximate total heap footprint.
    pub fn heap_bytes(&self) -> (n: usize)
        requires
            self.wf(),
        ensures
            self@.takes(0, n),
    {
        let text: usize = capacity_of(&self.buf);
        let spans: usize = capacity_of(&self.spans);
        let table: usize = self.index.capacity();
        assert(self@.fits(text, spans, table));
        arena_bytes(text, spans, table, self.buf.len())
    }

    /// Drop the dedup index, freeing memory once ingest is complete. Interning
    /// after this still works but no longer finds the strings interned before.
    pub fn shrink_for_readonly(&mut self)
        ensures
            final(self).wf(),
            final(self)@ == (ArenaView { base: old(self)@.spans.len(), ..old(self)@ }),
    {
        self.base = self.spans.len();
        self.index = HashIndex::new();
        shrink(&mut self.buf);
        shrink(&mut self.spans);
    }

    /// Raw contents for serialization: the byte buffer and the span table.
    pub fn raw_parts(&self) -> (r: (&[u8], &[(u32, u32)]))
        ensures
            r.0@ == self@.buf,
            r.1@ == self@.spans,
    {
        (self.buf.as_slice(), self.spans.as_slice())
    }

    /// Rebuild an arena from previously serialized parts. The dedup index is not
    /// rebuilt: loaded arenas are for reading.
    pub fn from_raw_parts(buf: Vec<u8>, spans: Vec<(u32, u32)>) -> (r: StringArena)
        ensures
            r.wf(),
            r@ == (ArenaView { buf: buf@, spans: spans@, base: spans@.len() }),
    {
        let base: usize = spans.len();
        StringArena { buf, spans, index: HashIndex::new(), base }
    }
}

// ------------------------------------------------------------------- laws --

/// An interned string reads back as itself.
pub proof fn an_interned_string_reads_back(a: ArenaView, s: Seq<char>, id: StrId)
    requires
        id.0 < FORMULA_TEXT_TAG,
        a.holds_at(id.0 as int, encode_utf8(s)),
    ensures
        a.resolved(id) == Some(s),
{
    encode_utf8_valid_utf8(s);
    encode_utf8_decode_utf8(s);
}

/// Interning a string changes what no earlier id stands for.
pub proof fn interning_keeps_the_other_strings(a: ArenaView, s: Seq<char>, id: StrId)
    requires
        a.sound(),
        id.0 < a.spans.len(),
    ensures
        a.appended(encode_utf8(s)).resolved(id) == a.resolved(id),
{
    assert(a.in_range(id.0 as int));
    assert(a.appended(encode_utf8(s)).bytes_at(id.0 as int) =~= a.bytes_at(id.0 as int));
}

/// A string that was just interned is found again, under the same id and no other.
pub proof fn interning_twice_gives_one_id(a: ArenaView, b: Seq<u8>, i: int)
    requires
        a.buf.len() + b.len() <= u32::MAX,
        a.base <= a.spans.len(),
        !a.knows(b),
        a.sound(),
    ensures
        a.appended(b).knows(b),
        a.appended(b).holds_at(i, b) <==> i == a.spans.len(),
{
    let now = a.appended(b);
    let n = a.spans.len() as int;
    assert(now.bytes_at(n) =~= b);
    assert(now.holds_at(n, b));
    if a.base <= i < n {
        assert(a.in_range(i));
        assert(now.bytes_at(i) =~= a.bytes_at(i));
        assert(!a.holds_at(i, b));
    }
}

/// What was written out and read back in has as many strings and bytes and resolves
/// every id as before. Only interning differs: a string that was there before is not
/// found again, and gets the next id.
pub proof fn raw_parts_rebuild_the_arena(
    a: ArenaView,
    formulas: Seq<Seq<char>>,
    id: StrId,
    b: Seq<u8>,
    after: ArenaView,
    new: StrId,
)
    ensures
        a.rebuilt().spans.len() == a.spans.len(),
        a.rebuilt().buf.len() == a.buf.len(),
        a.rebuilt().resolved_with(id, formulas) == a.resolved_with(id, formulas),
        a.rebuilt().interns(b, after, new) ==> new.0 == a.spans.len() && after
            == a.rebuilt().appended(b),
{
    assert(!a.rebuilt().knows(b)) by {
        assert forall|i: int| !(#[trigger] a.rebuilt().holds_at(i, b)) by {}
    }
}

/// Whatever is interned afterwards, an id goes on standing for its string.
pub proof fn an_interned_string_stays(
    a: ArenaView,
    s: Seq<char>,
    after: ArenaView,
    id: StrId,
    later: Seq<Seq<u8>>,
    formulas: Seq<Seq<char>>,
)
    requires
        a.sound(),
        a.base <= a.spans.len(),
        a.knows(encode_utf8(s)) || a.has_room(encode_utf8(s)),
        a.interns(encode_utf8(s), after, id),
        id.0 < FORMULA_TEXT_TAG,
    ensures
        all_interned(after, later).resolved_with(id, formulas) == Some(s),
{
    let b = encode_utf8(s);
    if !a.knows(b) {
        interning_twice_gives_one_id(a, b, id.0 as int);
    }
    assert(after.in_range(id.0 as int)) by {
        if a.knows(b) {
            assert(a.in_range(id.0 as int));
        }
    }
    lemma_kept_by_all(after, later, id.0 as int);
    an_interned_string_reads_back(after, s, id);
}

/// After one string upon the other was interned.
pub open spec fn all_interned(a: ArenaView, later: Seq<Seq<u8>>) -> ArenaView
    decreases later.len(),
{
    if later.len() == 0 {
        a
    } else {
        let before = all_interned(a, later.drop_last());
        if before.knows(later.last()) {
            before
        } else {
            before.appended(later.last())
        }
    }
}

proof fn lemma_kept_by_all(a: ArenaView, later: Seq<Seq<u8>>, i: int)
    requires
        0 <= i < a.spans.len(),
        a.in_range(i),
    ensures
        i < all_interned(a, later).spans.len(),
        all_interned(a, later).in_range(i),
        all_interned(a, later).bytes_at(i) == a.bytes_at(i),
    decreases later.len(),
{
    if later.len() > 0 {
        lemma_kept_by_all(a, later.drop_last(), i);
        lemma_kept_by_one(all_interned(a, later.drop_last()), later.last(), i);
    }
}

pub(crate) proof fn lemma_kept_by_one(a: ArenaView, b: Seq<u8>, i: int)
    requires
        0 <= i < a.spans.len(),
        a.in_range(i),
    ensures
        a.appended(b).in_range(i),
        a.appended(b).bytes_at(i) == a.bytes_at(i),
{
    assert(a.appended(b).bytes_at(i) =~= a.bytes_at(i));
}

/// A formula text's id is never an arena's.
pub proof fn formula_ids_are_apart(i: int, a: ArenaView, id: StrId)
    requires
        0 <= i < FORMULA_TEXT_TAG,
        a.resolved(id) is Some,
    ensures
        tagged(i) != id,
{
}

} // verus!
