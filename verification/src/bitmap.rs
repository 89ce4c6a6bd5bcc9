//! A compact validity bitmap: one bit per cell, `true` == value present.
//!
//! At 10M rows this costs 1.25 MB per column instead of the 10 MB a byte per
//! cell would burn, and it answers "is this whole run empty?" a word at a time.

use crate::capacity::{backs, capacity_of, heap_of};
use vstd::prelude::*;
use vstd::std_specs::bits::u64_trailing_zeros;

verus! {

/// Bit `j` of `w`, counted from the least significant.
pub open spec fn bit64(w: u64, j: u64) -> bool {
    (w >> j) & 1 == 1
}

/// How many of the `k` lowest bits of `w` are set.
pub open spec fn ones_below(w: u64, k: nat) -> nat
    decreases k,
{
    if k == 0 {
        0
    } else {
        ones_below(w, (k - 1) as nat) + if bit64(w, (k - 1) as u64) {
            1nat
        } else {
            0nat
        }
    }
}

/// How many of `s[lo]`, .., `s[hi - 1]` are true.
pub open spec fn ones_in(s: Seq<bool>, lo: int, hi: int) -> nat
    decreases hi - lo,
{
    if hi <= lo {
        0
    } else {
        ones_in(s, lo, hi - 1) + if s[hi - 1] {
            1nat
        } else {
            0nat
        }
    }
}

/// How many of `s` are true.
pub open spec fn ones_of(s: Seq<bool>) -> nat {
    ones_in(s, 0, s.len() as int)
}

/// `u64::count_ones`: the number of ones in the binary representation.
pub assume_specification[ u64::count_ones ](i: u64) -> (n: u32)
    ensures
        n as nat == ones_below(i, 64),
;

proof fn lemma_set_bit(w: u64, j: u64, k: u64)
    requires
        j < 64,
        k < 64,
    ensures
        bit64(w | (1u64 << j), k) == (k == j || bit64(w, k)),
        bit64(w & !(1u64 << j), k) == (k != j && bit64(w, k)),
        ((w & (1u64 << j)) != 0) == bit64(w, j),
{
    assert(((w | (1u64 << j)) >> k) & 1 == 1 <==> (k == j || (w >> k) & 1 == 1)) by (bit_vector)
        requires
            j < 64,
            k < 64,
    ;
    assert(((w & !(1u64 << j)) >> k) & 1 == 1 <==> (k != j && (w >> k) & 1 == 1)) by (bit_vector)
        requires
            j < 64,
            k < 64,
    ;
    assert((w & (1u64 << j)) != 0 <==> (w >> j) & 1 == 1) by (bit_vector)
        requires
            j < 64,
    ;
}

proof fn lemma_plain_words(k: u64)
    requires
        k < 64,
    ensures
        !bit64(0, k),
        bit64(u64::MAX, k),
{
    assert((0u64 >> k) & 1 == 0) by (bit_vector);
    assert((0xffff_ffff_ffff_ffffu64 >> k) & 1 == 1) by (bit_vector)
        requires
            k < 64,
    ;
}

proof fn lemma_low_mask(w: u64, r: u64, k: u64)
    requires
        0 < r < 64,
        k < 64,
    ensures
        (1u64 << r) >= 1,
        bit64(w & (((1u64 << r) - 1) as u64), k) == (k < r && bit64(w, k)),
{
    assert((1u64 << r) >= 1) by (bit_vector)
        requires
            r < 64,
    ;
    assert(((w & (((1u64 << r) - 1) as u64)) >> k) & 1 == 1 <==> (k < r && (w >> k) & 1 == 1))
        by (bit_vector)
        requires
            0 < r < 64,
            k < 64,
    ;
}

proof fn lemma_high_mask(w: u64, s: u64, k: u64)
    requires
        s < 64,
        k < 64,
    ensures
        bit64(w & (!0u64 << s), k) == (s <= k && bit64(w, k)),
{
    assert(((w & (!0u64 << s)) >> k) & 1 == 1 <==> (s <= k && (w >> k) & 1 == 1)) by (bit_vector)
        requires
            s < 64,
            k < 64,
    ;
}

proof fn lemma_mid_mask(w: u64, width: u64, s: u64, k: u64)
    requires
        0 < width < 64,
        s + width <= 64,
        k < 64,
    ensures
        (1u64 << width) >= 1,
        bit64(w & ((((1u64 << width) - 1) as u64) << s), k) == (s <= k < s + width && bit64(w, k)),
{
    assert((1u64 << width) >= 1) by (bit_vector)
        requires
            width < 64,
    ;
    assert(((w & ((((1u64 << width) - 1) as u64) << s)) >> k) & 1 == 1 <==> (s <= k && k < s
        + width && (w >> k) & 1 == 1)) by (bit_vector)
        requires
            0 < width < 64,
            s + width <= 64,
            k < 64,
    ;
}

/// A word that is not zero has a set bit, the lowest being at its count of
/// trailing zeros; `w & (w - 1)` clears that one and no other.
proof fn lemma_lowest_bit(w: u64)
    requires
        w != 0,
    ensures
        u64_trailing_zeros(w) < 64,
        bit64(w, u64_trailing_zeros(w) as u64),
        forall|k: u64| k < u64_trailing_zeros(w) ==> !#[trigger] bit64(w, k),
        forall|k: u64|
            k < 64 ==> #[trigger] bit64(w & ((w - 1) as u64), k) == (k != u64_trailing_zeros(w)
                && bit64(w, k)),
        (w & ((w - 1) as u64)) < w,
{
    vstd::std_specs::bits::axiom_u64_trailing_zeros(w);
    let t = u64_trailing_zeros(w) as u64;
    assert forall|k: u64| k < t implies !#[trigger] bit64(w, k) by {
        assert((w >> k) & 1u64 == 0u64);
    }
    let left = (64 - t) as u64;
    assert(w << left == 0);
    assert((w & ((w - 1) as u64)) == w & !(1u64 << t)) by (bit_vector)
        requires
            w != 0,
            t < 64,
            left == 64 - t,
            (w >> t) & 1u64 == 1u64,
            w << left == 0,
    ;
    assert((w & ((w - 1) as u64)) < w) by (bit_vector)
        requires
            w != 0,
    ;
    assert forall|k: u64| k < 64 implies #[trigger] bit64(w & ((w - 1) as u64), k) == (k != t
        && bit64(w, k)) by {
        lemma_set_bit(w, t, k);
    }
}

/// Counting over two neighbouring stretches is counting over both together.
pub proof fn ones_in_splits(s: Seq<bool>, lo: int, mid: int, hi: int)
    requires
        lo <= mid <= hi,
    ensures
        ones_in(s, lo, mid) + ones_in(s, mid, hi) == ones_in(s, lo, hi),
    decreases hi - mid,
{
    if mid < hi {
        ones_in_splits(s, lo, mid, hi - 1);
    }
}

/// A stretch holds no more set bits than it holds bits.
pub proof fn ones_in_bounded(s: Seq<bool>, lo: int, hi: int)
    ensures
        ones_in(s, lo, hi) <= if lo <= hi {
            hi - lo
        } else {
            0
        },
    decreases hi - lo,
{
    if lo < hi {
        ones_in_bounded(s, lo, hi - 1);
    }
}

proof fn lemma_ones_in_same(a: Seq<bool>, b: Seq<bool>, lo: int, hi: int)
    requires
        forall|i: int| lo <= i < hi ==> a[i] == b[i],
    ensures
        ones_in(a, lo, hi) == ones_in(b, lo, hi),
    decreases hi - lo,
{
    if lo < hi {
        lemma_ones_in_same(a, b, lo, hi - 1);
    }
}

proof fn lemma_ones_in_const(s: Seq<bool>, lo: int, hi: int, v: bool)
    requires
        lo <= hi,
        forall|i: int| lo <= i < hi ==> s[i] == v,
    ensures
        ones_in(s, lo, hi) == if v {
            hi - lo
        } else {
            0
        },
    decreases hi - lo,
{
    if lo < hi {
        lemma_ones_in_const(s, lo, hi - 1, v);
    }
}

/// A stretch that sits `n` further on counts the same.
proof fn lemma_ones_in_shift(a: Seq<bool>, b: Seq<bool>, n: int, m: int)
    requires
        0 <= n,
        0 <= m,
        forall|i: int| 0 <= i < m ==> a[n + i] == b[i],
    ensures
        ones_in(a, n, n + m) == ones_in(b, 0, m),
    decreases m,
{
    if m > 0 {
        lemma_ones_in_shift(a, b, n, m - 1);
        assert(a[n + (m - 1)] == b[m - 1]);
    }
}

/// Changing one bit changes the count by that bit.
proof fn lemma_ones_update(s: Seq<bool>, i: int, v: bool)
    requires
        0 <= i < s.len(),
    ensures
        ones_of(s.update(i, v)) + (if s[i] {
            1int
        } else {
            0
        }) == ones_of(s) + (if v {
            1int
        } else {
            0
        }),
{
    let t = s.update(i, v);
    let n = s.len() as int;
    ones_in_splits(s, 0, i, n);
    ones_in_splits(t, 0, i, n);
    ones_in_splits(s, i, i + 1, n);
    ones_in_splits(t, i, i + 1, n);
    lemma_ones_in_same(s, t, 0, i);
    lemma_ones_in_same(s, t, i + 1, n);
    assert(ones_in(s, i, i) == 0);
    assert(ones_in(t, i, i) == 0);
    assert(ones_in(s, i, i + 1) == (if s[i] { 1int } else { 0 }));
    assert(ones_in(t, i, i + 1) == (if v { 1int } else { 0 }));
}

/// A word that shows `s[base + lo]`, .., `s[base + hi - 1]` at bits `lo..hi`
/// and nothing elsewhere has as many ones as that stretch.
proof fn lemma_word_count(w: u64, s: Seq<bool>, base: int, lo: int, hi: int, k: nat)
    requires
        0 <= lo <= hi <= 64,
        k <= 64,
        forall|j: u64|
            j < 64 ==> #[trigger] bit64(w, j) == (lo <= j < hi && s[base + j]),
    ensures
        ones_below(w, k) == ones_in(
            s,
            base + lo,
            base + if k < lo {
                lo
            } else if k > hi {
                hi
            } else {
                k as int
            },
        ),
    decreases k,
{
    if k > 0 {
        lemma_word_count(w, s, base, lo, hi, (k - 1) as nat);
        assert(bit64(w, (k - 1) as u64) == (lo <= k - 1 < hi && s[base + k - 1]));
    }
}

/// Bits packed into words, least significant first within each word.
#[derive(Debug)]
pub struct Bitmap {
    words: Vec<u64>,
    len: usize,
    /// Number of set bits, kept up to date so that `count_set` is O(1).
    set_count: usize,
}

impl View for Bitmap {
    type V = Seq<bool>;

    closed spec fn view(&self) -> Seq<bool> {
        Seq::new(
            self.len as nat,
            |i: int| bit64(self.words@[i / 64], (i % 64) as u64),
        )
    }
}

impl Bitmap {
    /// Enough words and no more, nothing set beyond the last bit, and an exact
    /// count.
    pub closed spec fn wf(&self) -> bool {
        &&& self.shaped()
        &&& self.set_count as nat == ones_of(self@)
    }

    spec fn shaped(&self) -> bool {
        &&& self.words@.len() == (self.len + 63) / 64
        &&& forall|i: int|
            self.len <= i < self.words@.len() * 64 ==> !bit64(
                #[trigger] self.words@[i / 64],
                (i % 64) as u64,
            )
    }

    pub fn new() -> (r: Bitmap)
        ensures
            r.wf(),
            r@ == Seq::<bool>::empty(),
    {
        let r = Bitmap { words: Vec::new(), len: 0, set_count: 0 };
        assert(r@ =~= Seq::<bool>::empty());
        r
    }

    fn words_for(bits: usize) -> (n: usize)
        ensures
            n == (bits + 63) / 64,
    {
        if bits % 64 == 0 {
            bits / 64
        } else {
            bits / 64 + 1
        }
    }

    /// A bitmap of `len` bits, all cleared.
    pub fn zeros(len: usize) -> (r: Bitmap)
        ensures
            r.wf(),
            r@ == Seq::new(len as nat, |i: int| false),
    {
        let r = Bitmap { words: vec![0u64; Self::words_for(len)], len, set_count: 0 };
        proof {
            assert forall|i: int| 0 <= i < r.words@.len() * 64 implies !bit64(
                #[trigger] r.words@[i / 64],
                (i % 64) as u64,
            ) by {
                lemma_plain_words((i % 64) as u64);
            }
            assert(r@ =~= Seq::new(len as nat, |i: int| false));
            lemma_ones_in_const(r@, 0, len as int, false);
        }
        r
    }

    /// A bitmap of `len` bits, all set.
    pub fn ones(len: usize) -> (r: Bitmap)
        ensures
            r.wf(),
            r@ == Seq::new(len as nat, |i: int| true),
    {
        let mut words: Vec<u64> = vec![u64::MAX; Self::words_for(len)];
        let ghost full = words@;
        Self::mask_tail(&mut words, len);
        let r = Bitmap { words, len, set_count: len };
        proof {
            assert forall|i: int| 0 <= i < r.words@.len() * 64 implies bit64(
                #[trigger] r.words@[i / 64],
                (i % 64) as u64,
            ) == (i < len) by {
                lemma_plain_words((i % 64) as u64);
                assert(bit64(full[i / 64], (i % 64) as u64));
            }
            assert(r@ =~= Seq::new(len as nat, |i: int| true));
            lemma_ones_in_const(r@, 0, len as int, true);
        }
        r
    }

    pub fn with_capacity(cap: usize) -> (r: Bitmap)
        ensures
            r.wf(),
            r@ == Seq::<bool>::empty(),
    {
        let r = Bitmap { words: Vec::with_capacity(Self::words_for(cap)), len: 0, set_count: 0 };
        assert(r@ =~= Seq::<bool>::empty());
        r
    }

    /// Clears the bits of the final word from bit `len` on, so that word-wise
    /// work never sees garbage.
    fn mask_tail(words: &mut Vec<u64>, len: usize)
        requires
            old(words)@.len() == (len + 63) / 64,
        ensures
            final(words)@.len() == old(words)@.len(),
            forall|i: int|
                0 <= i < old(words)@.len() * 64 ==> bit64(
                    #[trigger] final(words)@[i / 64],
                    (i % 64) as u64,
                ) == (i < len && bit64(old(words)@[i / 64], (i % 64) as u64)),
    {
        let rem: usize = len % 64;
        if rem != 0 {
            let last: usize = words.len() - 1;
            let w: u64 = words[last];
            proof {
                lemma_low_mask(w, rem as u64, 0);
            }
            let masked: u64 = w & ((1u64 << rem) - 1);
            words.set(last, masked);
            proof {
                assert forall|i: int| 0 <= i < old(words)@.len() * 64 implies bit64(
                    #[trigger] words@[i / 64],
                    (i % 64) as u64,
                ) == (i < len && bit64(old(words)@[i / 64], (i % 64) as u64)) by {
                    if i / 64 == last {
                        lemma_low_mask(w, rem as u64, (i % 64) as u64);
                    }
                }
            }
        }
    }

    pub fn len(&self) -> (n: usize)
        ensures
            n == self@.len(),
    {
        self.len
    }

    pub fn is_empty(&self) -> (b: bool)
        ensures
            b == (self@.len() == 0),
    {
        self.len == 0
    }

    /// Number of bits set. O(1).
    pub fn count_set(&self) -> (n: usize)
        requires
            self.wf(),
        ensures
            n == ones_of(self@),
    {
        self.set_count
    }

    pub fn count_unset(&self) -> (n: usize)
        requires
            self.wf(),
        ensures
            n == self@.len() - ones_of(self@),
    {
        proof {
            ones_in_bounded(self@, 0, self.len as int);
        }
        self.len - self.set_count
    }

    /// The bit at `index`; false past the end.
    pub fn get(&self, index: usize) -> (b: bool)
        requires
            self.wf(),
        ensures
            b == (index < self@.len() && self@[index as int]),
    {
        if index >= self.len {
            return false;
        }
        (self.words[index / 64] >> (index % 64)) & 1 == 1
    }

    /// Set or clear a single bit.
    pub fn set(&mut self, index: usize, value: bool)
        requires
            old(self).wf(),
            index < old(self)@.len(),
        ensures
            final(self).wf(),
            final(self)@ == old(self)@.update(index as int, value),
    {
        let ghost before = self@;
        let at: usize = index / 64;
        let word: u64 = self.words[at];
        let mask: u64 = 1u64 << (index % 64);
        let was_set = word & mask != 0;
        proof {
            lemma_set_bit(word, (index % 64) as u64, (index % 64) as u64);
            lemma_ones_update(before, index as int, value);
            ones_in_bounded(before, 0, before.len() as int);
            ones_in_bounded(before.update(index as int, value), 0, before.len() as int);
        }
        if value {
            self.words.set(at, word | mask);
            if !was_set {
                self.set_count = self.set_count + 1;
            }
        } else {
            self.words.set(at, word & !mask);
            if was_set {
                self.set_count = self.set_count - 1;
            }
        }
        proof {
            assert forall|i: int| 0 <= i < self.words@.len() * 64 implies bit64(
                #[trigger] self.words@[i / 64],
                (i % 64) as u64,
            ) == (if i == index {
                value
            } else {
                bit64(old(self).words@[i / 64], (i % 64) as u64)
            }) by {
                if i / 64 == at {
                    lemma_set_bit(word, (index % 64) as u64, (i % 64) as u64);
                }
            }
            assert(self@ =~= before.update(index as int, value));
        }
    }

    /// Append one bit.
    pub fn push(&mut self, value: bool)
        requires
            old(self).wf(),
            old(self)@.len() < usize::MAX,
        ensures
            final(self).wf(),
            final(self)@ == old(self)@.push(value),
    {
        let ghost before = self@;
        let ghost old_words = self.words@;
        if self.len % 64 == 0 {
            self.words.push(0);
        }
        let index: usize = self.len;
        let at: usize = index / 64;
        self.len = self.len + 1;
        let ghost mid = self.words@;
        proof {
            assert forall|i: int| 0 <= i < mid.len() * 64 implies bit64(
                #[trigger] mid[i / 64],
                (i % 64) as u64,
            ) == (i < index && bit64(old_words[i / 64], (i % 64) as u64)) by {
                if i / 64 == old_words.len() {
                    lemma_plain_words((i % 64) as u64);
                }
            }
            ones_in_bounded(before, 0, before.len() as int);
            lemma_ones_in_same(before, before.push(value), 0, index as int);
        }
        if value {
            let word: u64 = self.words[at];
            self.words.set(at, word | (1u64 << (index % 64)));
            self.set_count = self.set_count + 1;
            proof {
                assert forall|i: int| 0 <= i < mid.len() * 64 implies bit64(
                    #[trigger] self.words@[i / 64],
                    (i % 64) as u64,
                ) == (i == index || bit64(mid[i / 64], (i % 64) as u64)) by {
                    if i / 64 == at {
                        lemma_set_bit(word, (index % 64) as u64, (i % 64) as u64);
                    }
                }
            }
        }
        proof {
            assert forall|i: int| 0 <= i < mid.len() * 64 implies bit64(
                #[trigger] self.words@[i / 64],
                (i % 64) as u64,
            ) == (if i == index {
                value
            } else {
                i < index && bit64(old_words[i / 64], (i % 64) as u64)
            }) by {
                assert(bit64(mid[i / 64], (i % 64) as u64) == (i < index && bit64(
                    old_words[i / 64],
                    (i % 64) as u64,
                )));
            }
            assert(self@ =~= before.push(value));
        }
    }

    /// The first `new_len` bits, and then copies of `value` up to `new_len`.
    pub open spec fn resized(s: Seq<bool>, new_len: nat, value: bool) -> Seq<bool> {
        Seq::new(
            new_len,
            |i: int|
                if i < s.len() {
                    s[i]
                } else {
                    value
                },
        )
    }

    /// Grow to `new_len`, filling new bits with `value`, or cut down to it.
    pub fn resize(&mut self, new_len: usize, value: bool)
        requires
            old(self).wf(),
        ensures
            final(self).wf(),
            final(self)@ == Self::resized(old(self)@, new_len as nat, value),
    {
        let ghost before = self@;
        let ghost old_words = self.words@;
        if new_len <= self.len {
            self.truncate(new_len);
            assert(self@ =~= Self::resized(before, new_len as nat, value));
            return;
        }
        let old_len: usize = self.len;
        self.words.resize(Self::words_for(new_len), 0);
        self.len = new_len;
        proof {
            assert forall|i: int| 0 <= i < self.words@.len() * 64 implies bit64(
                #[trigger] self.words@[i / 64],
                (i % 64) as u64,
            ) == (i < old_len && before[i]) by {
                if i / 64 < old_words.len() {
                    assert(self.words@.subrange(0, old_words.len() as int)[i / 64]
                        == old_words[i / 64]);
                } else {
                    lemma_plain_words((i % 64) as u64);
                }
            }
        }
        if value {
            // Bits [old_len, new_len): partial word, whole words, partial word.
            let mut i: usize = old_len;
            while i < new_len && i % 64 != 0
                invariant
                    self.len == new_len,
                    old_len <= i <= new_len,
                    old_len == before.len(),
                    self.set_count == old(self).set_count,
                    self.words@.len() == (new_len + 63) / 64,
                    forall|k: int|
                        0 <= k < self.words@.len() * 64 ==> bit64(
                            #[trigger] self.words@[k / 64],
                            (k % 64) as u64,
                        ) == (if k < old_len {
                            before[k]
                        } else {
                            k < i
                        }),
                decreases new_len - i,
            {
                self.raise(i);
                i = i + 1;
            }
            while new_len - i >= 64
                invariant
                    self.len == new_len,
                    old_len <= i <= new_len,
                    i < new_len ==> i % 64 == 0,
                    old_len == before.len(),
                    self.set_count == old(self).set_count,
                    self.words@.len() == (new_len + 63) / 64,
                    forall|k: int|
                        0 <= k < self.words@.len() * 64 ==> bit64(
                            #[trigger] self.words@[k / 64],
                            (k % 64) as u64,
                        ) == (if k < old_len {
                            before[k]
                        } else {
                            k < i
                        }),
                decreases new_len - i,
            {
                let ghost prev = self.words@;
                self.words.set(i / 64, u64::MAX);
                proof {
                    assert forall|k: int| 0 <= k < self.words@.len() * 64 implies bit64(
                        #[trigger] self.words@[k / 64],
                        (k % 64) as u64,
                    ) == (if k < old_len {
                        before[k]
                    } else {
                        k < i + 64
                    }) by {
                        lemma_plain_words((k % 64) as u64);
                        assert(bit64(prev[k / 64], (k % 64) as u64) == (if k < old_len {
                            before[k]
                        } else {
                            k < i
                        }));
                    }
                }
                i = i + 64;
            }
            while i < new_len
                invariant
                    self.len == new_len,
                    old_len <= i <= new_len,
                    old_len == before.len(),
                    self.set_count == old(self).set_count,
                    self.words@.len() == (new_len + 63) / 64,
                    forall|k: int|
                        0 <= k < self.words@.len() * 64 ==> bit64(
                            #[trigger] self.words@[k / 64],
                            (k % 64) as u64,
                        ) == (if k < old_len {
                            before[k]
                        } else {
                            k < i
                        }),
                decreases new_len - i,
            {
                self.raise(i);
                i = i + 1;
            }
            proof {
                ones_in_bounded(before, 0, old_len as int);
            }
            self.set_count = self.set_count + (new_len - old_len);
        }
        proof {
            assert(self@ =~= Self::resized(before, new_len as nat, value));
            ones_in_splits(self@, 0, old_len as int, new_len as int);
            lemma_ones_in_same(before, self@, 0, old_len as int);
            lemma_ones_in_const(self@, old_len as int, new_len as int, value);
        }
    }

    /// Sets bit `i` of the words, leaving the count alone.
    fn raise(&mut self, i: usize)
        requires
            i < old(self).words@.len() * 64,
        ensures
            final(self).len == old(self).len,
            final(self).set_count == old(self).set_count,
            final(self).words@.len() == old(self).words@.len(),
            forall|k: int|
                0 <= k < old(self).words@.len() * 64 ==> bit64(
                    #[trigger] final(self).words@[k / 64],
                    (k % 64) as u64,
                ) == (k == i || bit64(old(self).words@[k / 64], (k % 64) as u64)),
    {
        let at: usize = i / 64;
        let word: u64 = self.words[at];
        self.words.set(at, word | (1u64 << (i % 64)));
        proof {
            assert forall|k: int| 0 <= k < self.words@.len() * 64 implies bit64(
                #[trigger] self.words@[k / 64],
                (k % 64) as u64,
            ) == (k == i || bit64(old(self).words@[k / 64], (k % 64) as u64)) by {
                if k / 64 == at {
                    lemma_set_bit(word, (i % 64) as u64, (k % 64) as u64);
                }
            }
        }
    }

    /// Drop every bit from `new_len` on.
    pub fn truncate(&mut self, new_len: usize)
        requires
            old(self).wf(),
        ensures
            final(self).wf(),
            final(self)@ == cut(old(self)@, new_len as int),
    {
        if new_len >= self.len {
            assert(self@ =~= self@.subrange(0, self@.len() as int));
            return;
        }
        let ghost before = self@;
        // Recount only the bits being dropped.
        let mut dropped: usize = 0;
        let mut i: usize = new_len;
        while i < self.len
            invariant
                new_len <= i <= self.len,
                self.wf(),
                before == self@,
                dropped == ones_in(before, new_len as int, i as int),
            decreases self.len - i,
        {
            proof {
                ones_in_bounded(before, new_len as int, i as int);
            }
            if (self.words[i / 64] >> (i % 64)) & 1 == 1 {
                dropped = dropped + 1;
            }
            i = i + 1;
        }
        proof {
            ones_in_splits(before, 0, new_len as int, before.len() as int);
        }
        self.set_count = self.set_count - dropped;
        self.len = new_len;
        let ghost old_words = self.words@;
        self.words.truncate(Self::words_for(new_len));
        let ghost cut = self.words@;
        Self::mask_tail(&mut self.words, new_len);
        proof {
            assert forall|k: int| 0 <= k < cut.len() * 64 implies bit64(
                #[trigger] self.words@[k / 64],
                (k % 64) as u64,
            ) == (k < new_len && bit64(old_words[k / 64], (k % 64) as u64)) by {
                assert(cut[k / 64] == old_words[k / 64]);
            }
            assert(self@ =~= before.subrange(0, new_len as int));
            lemma_ones_in_same(before, self@, 0, new_len as int);
        }
    }

    /// Bits `lo..hi` of word `w`, cut out into `part`, have as many ones as the
    /// stretch of the bitmap that they stand for.
    proof fn lemma_part(&self, w: int, part: u64, lo: int, hi: int)
        requires
            0 <= w < self.words@.len(),
            0 <= lo <= hi <= 64,
            w * 64 + hi <= self.len,
            forall|j: u64|
                j < 64 ==> #[trigger] bit64(part, j) == (lo <= j < hi && bit64(self.words@[w], j)),
        ensures
            ones_below(part, 64) == ones_in(self@, w * 64 + lo, w * 64 + hi),
    {
        let s = self@;
        assert forall|j: u64| j < 64 implies #[trigger] bit64(part, j) == (lo <= j < hi && s[w * 64
            + j]) by {
            if lo <= j < hi {
                let at = w * 64 + j;
                assert(at / 64 == w && at % 64 == j);
            }
        }
        lemma_word_count(part, s, w * 64, lo, hi, 64);
    }

    /// Number of set bits in `[start, end)`, a word at a time.
    pub fn count_range(&self, start: usize, end: usize) -> (n: usize)
        requires
            self.wf(),
        ensures
            n == ones_in(
                self@,
                start as int,
                if end <= self@.len() {
                    end as int
                } else {
                    self@.len() as int
                },
            ),
    {
        let stop: usize = if end < self.len {
            end
        } else {
            self.len
        };
        if start >= stop {
            return 0;
        }
        let w0: usize = start / 64;
        let w1: usize = (stop - 1) / 64;
        if w0 == w1 {
            return self.count_in_word(w0, start, stop);
        }
        // Leading partial word.
        let word: u64 = self.words[w0];
        let first: u64 = word & (!0u64 << (start % 64));
        proof {
            let lo = start % 64;
            assert forall|j: u64| j < 64 implies #[trigger] bit64(first, j) == (lo <= j < 64
                && bit64(word, j)) by {
                lemma_high_mask(word, lo as u64, j);
            }
            self.lemma_part(w0 as int, first, lo as int, 64);
            assert(w0 * 64 + lo == start);
            ones_in_bounded(self@, start as int, (w0 + 1) * 64);
        }
        let mut n: usize = first.count_ones() as usize;
        // Whole words in between.
        let mut w: usize = w0 + 1;
        while w < w1
            invariant
                self.wf(),
                start < stop <= self@.len(),
                w0 == start / 64,
                w1 == (stop - 1) / 64,
                w0 < w <= w1,
                n == ones_in(self@, start as int, w * 64),
            decreases w1 - w,
        {
            let word: u64 = self.words[w];
            proof {
                self.lemma_part(w as int, word, 0, 64);
                ones_in_splits(self@, start as int, w * 64, (w + 1) * 64);
                ones_in_bounded(self@, start as int, (w + 1) * 64);
            }
            n = n + word.count_ones() as usize;
            w = w + 1;
        }
        // Trailing partial word.
        let tail: usize = self.count_in_word(w1, w1 * 64, stop);
        proof {
            ones_in_splits(self@, start as int, w1 * 64, stop as int);
            ones_in_bounded(self@, start as int, stop as int);
        }
        n + tail
    }

    /// Number of set bits in `[start, end)`, all of it inside word `w`.
    fn count_in_word(&self, w: usize, start: usize, end: usize) -> (n: usize)
        requires
            self.wf(),
            w * 64 <= start < end <= self@.len(),
            end <= w * 64 + 64,
        ensures
            n == ones_in(self@, start as int, end as int),
    {
        let width: usize = end - start;
        let shift: usize = start - w * 64;
        let word: u64 = self.words[w];
        let part: u64;
        if width == 64 {
            part = word;
        } else {
            proof {
                lemma_mid_mask(0, width as u64, shift as u64, 0);
            }
            part = word & (((1u64 << width) - 1) << shift);
        }
        proof {
            assert forall|j: u64| j < 64 implies #[trigger] bit64(part, j) == (shift <= j < shift
                + width && bit64(word, j)) by {
                if width < 64 {
                    lemma_mid_mask(word, width as u64, shift as u64, j);
                }
            }
            self.lemma_part(w as int, part, shift as int, shift + width);
        }
        part.count_ones() as usize
    }

    /// True when every bit in `[start, end)` is clear.
    pub fn is_range_empty(&self, start: usize, end: usize) -> (b: bool)
        requires
            self.wf(),
        ensures
            b == (forall|i: int| start <= i < end && i < self@.len() ==> !self@[i]),
    {
        let stop: usize = if end < self.len {
            end
        } else {
            self.len
        };
        if start >= stop {
            return true;
        }
        let mut i: usize = start;
        // Leading partial word.
        while i < stop && i % 64 != 0
            invariant
                self.wf(),
                start <= i <= stop <= self@.len(),
                stop == end || (stop < end && stop == self@.len()),
                forall|k: int| start <= k < i ==> !self@[k],
            decreases stop - i,
        {
            if self.get(i) {
                assert(self@[i as int]);
                return false;
            }
            i = i + 1;
        }
        // Whole words.
        while stop - i >= 64
            invariant
                self.wf(),
                start <= i <= stop <= self@.len(),
                stop == end || (stop < end && stop == self@.len()),
                i < stop ==> i % 64 == 0,
                forall|k: int| start <= k < i ==> !self@[k],
            decreases stop - i,
        {
            let word: u64 = self.words[i / 64];
            if word != 0 {
                proof {
                    lemma_lowest_bit(word);
                    let at = i + u64_trailing_zeros(word);
                    assert(at / 64 == i / 64 && at % 64 == u64_trailing_zeros(word));
                    assert(self@[at]);
                }
                return false;
            }
            proof {
                assert forall|k: int| i <= k < i + 64 implies !self@[k] by {
                    lemma_plain_words((k % 64) as u64);
                    assert(k / 64 == i / 64);
                }
            }
            i = i + 64;
        }
        // Trailing partial word.
        while i < stop
            invariant
                self.wf(),
                start <= i <= stop <= self@.len(),
                stop == end || (stop < end && stop == self@.len()),
                forall|k: int| start <= k < i ==> !self@[k],
            decreases stop - i,
        {
            if self.get(i) {
                assert(self@[i as int]);
                return false;
            }
            i = i + 1;
        }
        true
    }

    /// Append every bit of `other`, whole words at a time where the join falls
    /// on a word boundary.
    pub fn extend_from(&mut self, other: &Bitmap)
        requires
            old(self).wf(),
            other.wf(),
            old(self)@.len() + other@.len() <= usize::MAX,
        ensures
            final(self).wf(),
            final(self)@ == old(self)@ + other@,
    {
        let ghost before = self@;
        if other.len == 0 {
            assert(self@ =~= before + other@);
            return;
        }
        if self.len % 64 == 0 {
            let ghost old_words = self.words@;
            self.words.extend_from_slice(other.words.as_slice());
            self.len = self.len + other.len;
            proof {
                ones_in_bounded(before, 0, before.len() as int);
                ones_in_bounded(other@, 0, other@.len() as int);
            }
            self.set_count = self.set_count + other.set_count;
            proof {
                let ow = other.words@;
                assert(self.words@ =~= old_words + ow);
                assert forall|i: int| 0 <= i < self.words@.len() * 64 implies bit64(
                    #[trigger] self.words@[i / 64],
                    (i % 64) as u64,
                ) == (if i < before.len() {
                    before[i]
                } else {
                    i < self.len && other@[i - before.len()]
                }) by {
                    if i >= before.len() {
                        let k = i - before.len();
                        assert(k / 64 == i / 64 - old_words.len() && k % 64 == i % 64);
                        assert(self.words@[i / 64] == ow[k / 64]);
                    } else {
                        assert(self.words@[i / 64] == old_words[i / 64]);
                    }
                }
                assert(self@ =~= before + other@);
                let n = before.len() as int;
                ones_in_splits(self@, 0, n, self@.len() as int);
                lemma_ones_in_same(self@, before, 0, n);
                lemma_ones_in_shift(self@, other@, n, other@.len() as int);
            }
        } else {
            let mut i: usize = 0;
            while i < other.len
                invariant
                    self.wf(),
                    other.wf(),
                    0 <= i <= other.len,
                    other.len == other@.len(),
                    before.len() + other@.len() <= usize::MAX,
                    self@ == before + other@.subrange(0, i as int),
                decreases other.len - i,
            {
                let v = other.get(i);
                self.push(v);
                i = i + 1;
                assert(self@ =~= before + other@.subrange(0, i as int));
            }
            assert(other@.subrange(0, other@.len() as int) =~= other@);
        }
    }

    pub fn clear(&mut self)
        ensures
            final(self).wf(),
            final(self)@ == Seq::<bool>::empty(),
    {
        self.words.clear();
        self.len = 0;
        self.set_count = 0;
        assert(self@ =~= Seq::<bool>::empty());
    }

    /// The indices of the set bits, ascending, empty words skipped wholesale.
    pub fn iter_set(&self) -> (out: Vec<usize>)
        requires
            self.wf(),
        ensures
            forall|a: int, b: int| 0 <= a < b < out@.len() ==> out@[a] < out@[b],
            forall|a: int|
                0 <= a < out@.len() ==> (#[trigger] out@[a]) < self@.len() && self@[out@[a] as int],
            forall|i: int|
                0 <= i < self@.len() && #[trigger] self@[i] ==> out@.contains(i as usize),
    {
        let mut out: Vec<usize> = Vec::new();
        let mut w: usize = 0;
        while w < self.words.len()
            invariant
                self.wf(),
                w <= self.words@.len(),
                forall|a: int, b: int| 0 <= a < b < out@.len() ==> out@[a] < out@[b],
                forall|a: int|
                    0 <= a < out@.len() ==> (#[trigger] out@[a]) < self@.len() && out@[a] < w * 64
                        && self@[out@[a] as int],
                forall|i: int|
                    0 <= i < self@.len() && i < w * 64 && #[trigger] self@[i] ==> out@.contains(
                        i as usize,
                    ),
            decreases self.words@.len() - w,
        {
            let word: u64 = self.words[w];
            let mut bits: u64 = word;
            let base: usize = w * 64;
            let ghost mut done: int = 0;
            proof {
                assert forall|k: u64| k < 64 && #[trigger] bit64(bits, k) implies base + k
                    < self.len && self@[base + k] by {
                    let at = base + k;
                    assert(at / 64 == w && at % 64 == k);
                    if at >= self.len {
                        assert(!bit64(self.words@[at / 64], (at % 64) as u64));
                    }
                }
            }
            while bits != 0
                invariant
                    self.wf(),
                    w < self.words@.len(),
                    base == w * 64,
                    word == self.words@[w as int],
                    0 <= done <= 64,
                    forall|k: u64| k < 64 ==> #[trigger] bit64(bits, k) == (k >= done && bit64(word, k)),
                    forall|k: u64|
                        k < 64 && #[trigger] bit64(word, k) ==> base + k < self@.len() && self@[base
                            + k],
                    forall|a: int, b: int| 0 <= a < b < out@.len() ==> out@[a] < out@[b],
                    forall|a: int|
                        0 <= a < out@.len() ==> (#[trigger] out@[a]) < self@.len() && out@[a] < base
                            + done && self@[out@[a] as int],
                    forall|i: int|
                        0 <= i < self@.len() && i < base + done && #[trigger] self@[i]
                            ==> out@.contains(i as usize),
                decreases bits,
            {
                proof {
                    lemma_lowest_bit(bits);
                }
                let tz: usize = bits.trailing_zeros() as usize;
                let ghost prev = out@;
                assert(bit64(bits, tz as u64));
                assert(base + tz < self@.len());
                out.push(base + tz);
                let ghost bits0 = bits;
                bits = bits & (bits - 1);
                proof {
                    assert forall|k: u64| k < 64 implies #[trigger] bit64(bits, k) == (k >= tz + 1
                        && bit64(word, k)) by {
                        assert(bit64(bits0, k) == (k >= done && bit64(word, k)));
                        if k < tz {
                            assert(!bit64(bits0, k));
                        }
                    }
                    assert forall|i: int|
                        0 <= i < self@.len() && i < base + tz + 1 && #[trigger] self@[i] implies out@.contains(
                        i as usize,
                    ) by {
                        if i < base + done {
                            assert(prev.contains(i as usize));
                            let a = choose|a: int| 0 <= a < prev.len() && prev[a] == i as usize;
                            assert(out@[a] == i as usize);
                        } else if i == base + tz {
                            assert(out@[prev.len() as int] == i as usize);
                        } else {
                            let k = (i - base) as u64;
                            assert(i / 64 == w && i % 64 == k);
                            assert(bit64(word, k));
                            assert(bit64(bits0, k));
                        }
                    }
                    done = tz + 1;
                }
            }
            proof {
                assert forall|i: int|
                    0 <= i < self@.len() && i < (w + 1) * 64 && #[trigger] self@[i] implies out@.contains(
                    i as usize,
                ) by {
                    if i >= base + done {
                        let k = (i - base) as u64;
                        assert(i / 64 == w && i % 64 == k);
                        assert(bit64(word, k));
                        lemma_plain_words(k);
                        assert(bit64(bits, k));
                    }
                }
            }
            w = w + 1;
        }
        out
    }

    /// Approximate heap footprint in bytes.
    pub fn heap_bytes(&self) -> (n: usize)
        requires
            self.wf(),
        ensures
            backs(n, (self@.len() as int + 63) / 64, 8),
    {
        heap_of(&self.words, 8)
    }

    /// How many words of 64 bits there is room for.
    pub(crate) fn word_capacity(&self) -> (words: usize)
        requires
            self.wf(),
        ensures
            words >= (self@.len() + 63) / 64,
    {
        capacity_of(&self.words)
    }
}

impl Clone for Bitmap {
    fn clone(&self) -> (r: Bitmap)
        ensures
            self.wf() ==> r.wf(),
            r@ == self@,
    {
        let r = Bitmap { words: self.words.clone(), len: self.len, set_count: self.set_count };
        assert(r.words@ =~= self.words@);
        assert(r@ =~= self@);
        r
    }
}

impl Default for Bitmap {
    fn default() -> (r: Bitmap)
        ensures
            r.wf(),
            r@ == Seq::<bool>::empty(),
    {
        Bitmap::new()
    }
}

impl Bitmap {
    /// The same words, length and count.
    pub closed spec fn same(&self, other: &Bitmap) -> bool {
        &&& self.words@ == other.words@
        &&& self.len == other.len
        &&& self.set_count == other.set_count
    }
}

impl PartialEq for Bitmap {
    fn eq(&self, other: &Bitmap) -> (r: bool) {
        if self.len != other.len || self.set_count != other.set_count || self.words.len()
            != other.words.len() {
            return false;
        }
        let mut i: usize = 0;
        while i < self.words.len()
            invariant
                i <= self.words@.len() == other.words@.len(),
                forall|k: int| 0 <= k < i ==> self.words@[k] == other.words@[k],
            decreases self.words@.len() - i,
        {
            if self.words[i] != other.words[i] {
                return false;
            }
            i = i + 1;
        }
        assert(self.words@ =~= other.words@);
        true
    }
}

impl vstd::std_specs::cmp::PartialEqSpecImpl for Bitmap {
    open spec fn obeys_eq_spec() -> bool {
        true
    }

    open spec fn eq_spec(&self, other: &Bitmap) -> bool {
        self.same(other)
    }
}

impl Eq for Bitmap {

}

// ------------------------------------------------------------------- laws --

proof fn lemma_same_bits(a: u64, b: u64, k: u64)
    requires
        k < 64,
        forall|j: u64| k <= j < 64 ==> bit64(a, j) == bit64(b, j),
    ensures
        a >> k == b >> k,
    decreases 64 - k,
{
    assert(bit64(a, k) == bit64(b, k));
    if k == 63 {
        assert(((a >> 63) & 1 == 1) == ((b >> 63) & 1 == 1) ==> a >> 63 == b >> 63)
            by (bit_vector);
    } else {
        let next = (k + 1) as u64;
        lemma_same_bits(a, b, next);
        assert(k < 63 && next == k + 1 && a >> next == b >> next && ((a >> k) & 1 == 1) == ((b >> k)
            & 1 == 1) ==> a >> k == b >> k) by (bit_vector);
    }
}

/// Two bitmaps are equal, as `==` tells, exactly when they have the same bits: how
/// they came by them leaves no trace.
pub proof fn the_same_bits_are_equal_bitmaps(a: Bitmap, b: Bitmap)
    requires
        a.wf(),
        b.wf(),
    ensures
        a.same(&b) <==> a@ == b@,
{
    if a.same(&b) {
        assert(a@ =~= b@);
    }
    if a@ == b@ {
        assert forall|w: int| 0 <= w < a.words@.len() implies a.words@[w] == b.words@[w] by {
            let (x, y) = (a.words@[w], b.words@[w]);
            assert forall|j: u64| 0 <= j < 64 implies bit64(x, j) == bit64(y, j) by {
                let i = w * 64 + j;
                assert(i / 64 == w && i % 64 == j);
                if i < a.len {
                    assert(a@[i] == b@[i]);
                } else {
                    assert(!bit64(a.words@[i / 64], (i % 64) as u64));
                    assert(!bit64(b.words@[i / 64], (i % 64) as u64));
                }
            }
            lemma_same_bits(x, y, 0);
            assert(x >> 0 == y >> 0 ==> x == y) by (bit_vector);
        }
        assert(a.words@ =~= b.words@);
    }
}

/// The bits that a cut to `new_len` leaves.
pub open spec fn cut(s: Seq<bool>, new_len: int) -> Seq<bool> {
    if new_len <= s.len() {
        s.subrange(0, new_len)
    } else {
        s
    }
}

/// The bits got by pushing the first `n` of `s` onto none.
pub open spec fn pushed_anew(s: Seq<bool>, n: int) -> Seq<bool>
    decreases n,
{
    if n <= 0 {
        Seq::empty()
    } else {
        pushed_anew(s, n - 1).push(s[n - 1])
    }
}

proof fn lemma_pushed_anew(s: Seq<bool>, n: int)
    requires
        0 <= n <= s.len(),
    ensures
        pushed_anew(s, n) == s.subrange(0, n),
    decreases n,
{
    if n > 0 {
        lemma_pushed_anew(s, n - 1);
    }
    assert(pushed_anew(s, n) =~= s.subrange(0, n));
}

/// A truncated bitmap equals the one got by pushing the bits that are left onto an
/// empty one, and a cut beyond the end changes nothing: the bits that were dropped
/// leave no trace.
pub proof fn a_truncated_bitmap_equals_one_built_anew(
    before: Bitmap,
    new_len: usize,
    after: Bitmap,
    anew: Bitmap,
)
    requires
        before.wf(),
        after.wf(),
        after@ == cut(before@, new_len as int),
        anew.wf(),
        anew@ == pushed_anew(
            before@,
            if new_len <= before@.len() {
                new_len as int
            } else {
                before@.len() as int
            },
        ),
    ensures
        after.same(&anew),
        ones_of(after@) == ones_of(anew@),
        new_len >= before@.len() ==> after.same(&before),
{
    let n = if new_len <= before@.len() {
        new_len as int
    } else {
        before@.len() as int
    };
    lemma_pushed_anew(before@, n);
    assert(before@.subrange(0, before@.len() as int) =~= before@);
    the_same_bits_are_equal_bitmaps(after, anew);
    the_same_bits_are_equal_bitmaps(after, before);
}

} // verus!
