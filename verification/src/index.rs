//! Finding an entry again by its hash.
//!
//! Entries are numbered in the order in which they were added. Those with one
//! hash form a chain from the newest back to the oldest; two different keys may
//! share a hash, so whoever looks a key up compares the keys on the chain.

use crate::capacity::capacity_of;
use crate::text::texts;
use std::collections::HashMap;
use vstd::prelude::*;

verus! {

broadcast use vstd::std_specs::hash::group_hash_axioms;

/// The hashes of a list of entries, each entry reachable by its hash.
#[derive(Debug)]
pub struct HashIndex {
    heads: HashMap<u64, usize>,
    prev: Vec<Option<usize>>,
    hashes: Vec<u64>,
}

impl View for HashIndex {
    type V = Seq<u64>;

    closed spec fn view(&self) -> Seq<u64> {
        self.hashes@
    }
}

/// No entry with hash `h` stands in `from..to`.
pub open spec fn none_between(hashes: Seq<u64>, h: u64, from: int, to: int) -> bool {
    forall|k: int| from <= k < to ==> #[trigger] hashes[k] != h
}

/// `at` is the last entry with hash `h` below `end`, if there is one.
pub open spec fn latest(hashes: Seq<u64>, h: u64, end: int, at: Option<usize>) -> bool {
    match at {
        Some(i) => i < end && hashes[i as int] == h && none_between(hashes, h, i + 1, end),
        None => none_between(hashes, h, 0, end),
    }
}

impl HashIndex {
    pub closed spec fn wf(self) -> bool {
        &&& self.prev@.len() == self.hashes@.len()
        &&& forall|i: int|
            0 <= i < self.prev@.len() ==> latest(
                self.hashes@,
                self.hashes@[i],
                i,
                #[trigger] self.prev@[i],
            )
        &&& forall|h: u64| #[trigger]
            self.heads@.contains_key(h) ==> latest(
                self.hashes@,
                h,
                self.hashes@.len() as int,
                Some(self.heads@[h]),
            )
        &&& forall|h: u64|
            !(#[trigger] self.heads@.contains_key(h)) ==> none_between(
                self.hashes@,
                h,
                0,
                self.hashes@.len() as int,
            )
    }

    pub fn new() -> (r: HashIndex)
        ensures
            r.wf(),
            r@ == Seq::<u64>::empty(),
    {
        HashIndex { heads: HashMap::new(), prev: Vec::new(), hashes: Vec::new() }
    }

    /// An index of the same entries.
    pub fn copy(&self) -> (r: HashIndex)
        ensures
            r.wf(),
            r@ == self@,
    {
        let mut r = HashIndex::new();
        let mut i: usize = 0;
        while i < self.hashes.len()
            invariant
                i <= self.hashes@.len(),
                self@ == self.hashes@,
                r.wf(),
                r@ == self@.subrange(0, i as int),
            decreases self.hashes@.len() - i,
        {
            r.push(self.hashes[i]);
            i = i + 1;
            assert(r@ =~= self@.subrange(0, i as int));
        }
        assert(self@.subrange(0, self@.len() as int) =~= self@);
        r
    }

    /// How many entries there is room for.
    pub(crate) fn capacity(&self) -> (room: usize)
        requires
            self.wf(),
        ensures
            room >= self@.len(),
    {
        capacity_of(&self.hashes)
    }

    /// The newest entry with hash `h`.
    pub fn newest(&self, h: u64) -> (at: Option<usize>)
        requires
            self.wf(),
        ensures
            latest(self@, h, self@.len() as int, at),
    {
        match self.heads.get(&h) {
            Some(i) => {
                assert(self.heads@.contains_key(h));
                Some(*i)
            },
            None => {
                assert(!self.heads@.contains_key(h));
                None
            },
        }
    }

    /// The newest entry older than `i` with the same hash.
    pub fn older(&self, i: usize) -> (at: Option<usize>)
        requires
            self.wf(),
            i < self@.len(),
        ensures
            latest(self@, self@[i as int], i as int, at),
    {
        self.prev[i]
    }

    /// Adds an entry with hash `h` behind the others.
    pub fn push(&mut self, h: u64)
        requires
            old(self).wf(),
        ensures
            final(self).wf(),
            final(self)@ == old(self)@.push(h),
    {
        let n: usize = self.hashes.len();
        let before = self.newest(h);
        let ghost was = self.hashes@;
        let ghost heads = self.heads@;
        self.prev.push(before);
        self.heads.insert(h, n);
        self.hashes.push(h);
        proof {
            assert forall|i: int| 0 <= i < self.prev@.len() implies latest(
                self.hashes@,
                self.hashes@[i],
                i,
                #[trigger] self.prev@[i],
            ) by {
                if i < n {
                    assert(latest(was, was[i], i, old(self).prev@[i]));
                    assert(self.prev@[i] == old(self).prev@[i]);
                }
            }
            assert forall|g: u64| #[trigger] self.heads@.contains_key(g) implies latest(
                self.hashes@,
                g,
                self.hashes@.len() as int,
                Some(self.heads@[g]),
            ) by {
                if g != h {
                    assert(heads.contains_key(g));
                    assert(latest(was, g, n as int, Some(heads[g])));
                }
            }
            assert forall|g: u64| !(#[trigger] self.heads@.contains_key(g)) implies none_between(
                self.hashes@,
                g,
                0,
                self.hashes@.len() as int,
            ) by {
                assert(!heads.contains_key(g));
                assert(none_between(was, g, 0, n as int));
            }
        }
    }
}

/// Mixes one more number into a hash.
pub open spec fn mixed(h: u64, x: u64) -> u64 {
    (h ^ x).wrapping_mul(0x0000_0100_0000_01b3)
}

pub fn mix(h: u64, x: u64) -> (r: u64)
    ensures
        r == mixed(h, x),
{
    (h ^ x).wrapping_mul(0x0000_0100_0000_01b3)
}

pub const HASH_SEED: u64 = 0xcbf2_9ce4_8422_2325;

/// The hash of a text.
pub open spec fn text_hash(s: Seq<char>) -> u64
    decreases s.len(),
{
    if s.len() == 0 {
        HASH_SEED
    } else {
        mixed(text_hash(s.drop_last()), s.last() as u64)
    }
}

pub fn hash_text(s: &str) -> (h: u64)
    ensures
        h == text_hash(s@),
{
    let mut h: u64 = HASH_SEED;
    for c in it: s.chars()
        invariant
            it.seq() == s@,
            h == text_hash(s@.subrange(0, it.index() as int)),
    {
        assert(s@.subrange(0, it.index() + 1).drop_last() =~= s@.subrange(0, it.index() as int));
        h = mix(h, c as u64);
    }
    assert(s@.subrange(0, s@.len() as int) =~= s@);
    h
}

/// A list of different texts, each of which can be found fast.
pub struct TextIndex {
    keys: Vec<String>,
    index: HashIndex,
}

impl View for TextIndex {
    type V = Seq<Seq<char>>;

    closed spec fn view(&self) -> Seq<Seq<char>> {
        texts(self.keys@)
    }
}

impl TextIndex {
    pub closed spec fn wf(self) -> bool {
        &&& self.index.wf()
        &&& self.index@.len() == self.keys@.len()
        &&& forall|i: int|
            0 <= i < self.keys@.len() ==> #[trigger] self.index@[i] == text_hash(self.keys@[i]@)
        &&& self@.no_duplicates()
    }

    /// No text is listed twice.
    pub proof fn lemma_distinct(self)
        requires
            self.wf(),
        ensures
            self@.no_duplicates(),
    {
    }

    pub fn new() -> (r: TextIndex)
        ensures
            r.wf(),
            r@ == Seq::<Seq<char>>::empty(),
    {
        let r = TextIndex { keys: Vec::new(), index: HashIndex::new() };
        assert(r@ =~= Seq::<Seq<char>>::empty());
        r
    }

    pub fn len(&self) -> (n: usize)
        ensures
            n == self@.len(),
    {
        self.keys.len()
    }

    pub fn get(&self, i: usize) -> (s: &String)
        requires
            i < self@.len(),
        ensures
            s@ == self@[i as int],
    {
        &self.keys[i]
    }

    /// Where `key` is listed.
    pub fn find(&self, key: &String) -> (at: Option<usize>)
        requires
            self.wf(),
        ensures
            match at {
                Some(i) => i < self@.len() && self@[i as int] == key@,
                None => !self@.contains(key@),
            },
    {
        let h: u64 = hash_text(key.as_str());
        let mut at = self.index.newest(h);
        let ghost mut end: int = self.keys@.len() as int;
        loop
            invariant
                self.wf(),
                h == text_hash(key@),
                0 <= end <= self.keys@.len(),
                latest(self.index@, h, end, at),
                forall|k: int| end <= k < self.keys@.len() ==> (#[trigger] self.keys@[k])@ != key@,
            decreases end,
        {
            match at {
                Some(i) => {
                    if self.keys[i] == *key {
                        return Some(i);
                    }
                    proof {
                        assert forall|k: int|
                            i <= k < self.keys@.len() implies (#[trigger] self.keys@[k])@
                            != key@ by {
                            if i < k < end {
                                assert(self.index@[k] != h);
                                assert(self.index@[k] == text_hash(self.keys@[k]@));
                            }
                        }
                        assert(self.index@[i as int] == h);
                        end = i as int;
                    }
                    at = self.index.older(i);
                },
                None => {
                    proof {
                        assert forall|k: int| 0 <= k < self@.len() implies self@[k] != key@ by {
                            if k < end {
                                assert(self.index@[k] != h);
                                assert(self.index@[k] == text_hash(self.keys@[k]@));
                            }
                            assert(self@[k] == self.keys@[k]@);
                        }
                    }
                    return None;
                },
            }
        }
    }

    /// Lists `key` behind the others.
    pub fn add(&mut self, key: String)
        requires
            old(self).wf(),
            !old(self)@.contains(key@),
        ensures
            final(self).wf(),
            final(self)@ == old(self)@.push(key@),
    {
        let ghost was = self@;
        let ghost key_v = key@;
        let h: u64 = hash_text(key.as_str());
        self.index.push(h);
        self.keys.push(key);
        proof {
            assert(self@ =~= was.push(key_v));
            assert forall|i: int| 0 <= i < self.keys@.len() implies #[trigger] self.index@[i]
                == text_hash(self.keys@[i]@) by {
                if i < was.len() {
                    assert(old(self).index@[i] == text_hash(old(self).keys@[i]@));
                }
            }
            assert forall|i: int, j: int|
                0 <= i < self@.len() && 0 <= j < self@.len() && i != j implies self@[i]
                != self@[j] by {
                if i < was.len() && j < was.len() {
                    assert(was[i] != was[j]);
                } else if i < was.len() {
                    assert(was.contains(was[i]));
                } else {
                    assert(was.contains(was[j]));
                }
            }
        }
    }

    /// The texts in the order in which they were added.
    pub fn into_texts(self) -> (keys: Vec<String>)
        ensures
            texts(keys@) == self@,
    {
        self.keys
    }
}

} // verus!
