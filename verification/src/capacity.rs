//! How much heap a vector holds on to.

use std::collections::HashMap;
use vstd::prelude::*;

verus! {

/// `Vec::capacity`: how many elements the vector can hold without growing.
///
/// The contract claims what holds of every allocation: the capacity is at
/// least the length. How much more it is depends on the allocator and on the
/// vector's history, and is left unsaid.
#[verifier::external_body]
pub(crate) fn capacity_of<T>(v: &Vec<T>) -> (capacity: usize)
    ensures
        capacity >= v@.len(),
{
    v.capacity()
}

/// `String::capacity`: how many bytes the string can hold without growing.
///
/// The contract claims that the capacity is at least the bytes it holds; what it
/// has to spare is left unsaid, as it is of a vector.
#[verifier::external_body]
pub(crate) fn text_capacity(s: &String) -> (capacity: usize)
    ensures
        capacity >= vstd::utf8::encode_utf8(s@).len(),
{
    s.capacity()
}

/// `Vec::shrink_to_fit`: gives spare capacity back and keeps what the vector holds.
#[verifier::external_body]
pub(crate) fn shrink<T>(v: &mut Vec<T>)
    ensures
        final(v)@ == old(v)@,
{
    v.shrink_to_fit()
}

/// `n`, or the largest `usize` where `n` is beyond it.
pub open spec fn at_most_max(n: int) -> int {
    if n > usize::MAX {
        usize::MAX as int
    } else {
        n
    }
}

/// A product that stops at the largest `usize`.
pub fn capped_mul(a: usize, b: usize) -> (r: usize)
    ensures
        r == at_most_max(a * b),
{
    match a.checked_mul(b) {
        Some(n) => n,
        None => usize::MAX,
    }
}

/// The sum of a list.
pub open spec fn total(v: Seq<usize>) -> int
    decreases v.len(),
{
    if v.len() == 0 {
        0
    } else {
        total(v.drop_last()) + v.last()
    }
}

/// The sum of a list, or the largest `usize` where it is beyond that.
pub(crate) fn capped_total(v: &Vec<usize>) -> (n: usize)
    ensures
        n == at_most_max(total(v@)),
        total(v@) >= 0,
{
    let mut n: usize = 0;
    let mut i: usize = 0;
    while i < v.len()
        invariant
            i <= v@.len(),
            n == at_most_max(total(v@.subrange(0, i as int))),
            total(v@.subrange(0, i as int)) >= 0,
        decreases v@.len() - i,
    {
        assert(v@.subrange(0, i + 1).drop_last() =~= v@.subrange(0, i as int));
        n = n.saturating_add(v[i]);
        i = i + 1;
    }
    assert(v@.subrange(0, i as int) =~= v@);
    n
}

/// What the comments of a sheet take, given how many entries each row has room for

pub proof fn lemma_total(v: Seq<usize>)
    ensures
        total(v) >= 0,
    decreases v.len(),
{
    if v.len() > 0 {
        lemma_total(v.drop_last());
    }
}

/// Stopping a factor at the largest `usize` does not change where the product stops.
pub proof fn lemma_capped_factor(a: int, b: int)
    requires
        0 <= a,
        0 <= b,
    ensures
        at_most_max(a * at_most_max(b)) == at_most_max(a * b),
{
    if b > usize::MAX && a > 0 {
        assert(a * b >= b) by (nonlinear_arith)
            requires
                a > 0,
                b > 0,
        ;
        assert(a * usize::MAX >= usize::MAX) by (nonlinear_arith)
            requires
                a > 0,
        ;
    }
}

/// `HashMap::capacity`: how many entries the map can hold without growing.
///
/// The contract claims that the capacity is at least the number of entries; what it
/// has to spare is left unsaid, as it is of a vector.
#[verifier::external_body]
pub(crate) fn map_capacity<T>(m: &HashMap<u64, T>) -> (capacity: usize)
    ensures
        capacity >= m@.dom().len(),
{
    m.capacity()
}

/// There is room for the bytes of every text.
pub open spec fn texts_fit(room: Seq<usize>, held: Seq<Seq<char>>) -> bool {
    &&& room.len() == held.len()
    &&& forall|i: int|
        0 <= i < held.len() ==> #[trigger] room[i] >= vstd::utf8::encode_utf8(held[i]).len()
}

/// `slots` elements of `each` bytes take `bytes`.
pub open spec fn slots_take(slots: usize, each: int, bytes: usize) -> bool {
    bytes == at_most_max(slots * each)
}

/// What a vector of `len` elements of `each` bytes takes: the bytes of its slots,
/// which are at least as many as the elements.
pub open spec fn backs(bytes: usize, len: int, each: int) -> bool {
    exists|slots: usize| slots >= len && #[trigger] slots_take(slots, each, bytes)
}

/// The heap bytes behind `v`, an element taking `each` bytes.
pub fn heap_of<T>(v: &Vec<T>, each: usize) -> (bytes: usize)
    ensures
        backs(bytes, v@.len() as int, each as int),
{
    let slots: usize = capacity_of(v);
    let bytes: usize = capped_mul(slots, each);
    assert(slots_take(slots, each as int, bytes));
    bytes
}

} // verus!
