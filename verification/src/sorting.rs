//! A stable merge sort.

use vstd::prelude::*;

verus! {

/// Values with an order in which neither of two may come first.
pub trait Ordered: Sized {
    /// `self` has to stand before `other`.
    spec fn precedes(self, other: Self) -> bool;

    /// At most one of two values has to stand before the other.
    proof fn asymmetric(a: Self, b: Self)
        ensures
            a.precedes(b) ==> !b.precedes(a),
    ;

    /// Not having to stand after is transitive.
    proof fn transitive(a: Self, b: Self, c: Self)
        ensures
            !b.precedes(a) && !c.precedes(b) ==> !c.precedes(a),
    ;

    fn is_before(&self, other: &Self) -> (b: bool)
        ensures
            b == self.precedes(*other),
    ;
}

/// Nothing stands after something that it has to precede.
pub open spec fn in_order<T: Ordered>(v: Seq<T>) -> bool {
    forall|i: int, j: int| 0 <= i < j < v.len() ==> !(#[trigger] v[j]).precedes(#[trigger] v[i])
}

/// Every entry of `a` may stand before every entry of `b`.
spec fn all_before<T: Ordered>(a: Seq<T>, b: Seq<T>) -> bool {
    forall|i: int, j: int|
        0 <= i < a.len() && 0 <= j < b.len() ==> !(#[trigger] b[j]).precedes(#[trigger] a[i])
}

proof fn lemma_pop<T>(v: Seq<T>)
    requires
        v.len() > 0,
    ensures
        v.to_multiset() == v.drop_last().to_multiset().insert(v.last()),
{
    broadcast use vstd::seq_lib::group_to_multiset_ensures;

    assert(v =~= v.drop_last().push(v.last()));
}

proof fn lemma_parts<T>(v: Seq<T>, k: int)
    requires
        0 <= k <= v.len(),
    ensures
        v.to_multiset() == v.subrange(0, k).to_multiset().add(
            v.subrange(k, v.len() as int).to_multiset(),
        ),
{
    vstd::seq_lib::lemma_multiset_commutative(v.subrange(0, k), v.subrange(k, v.len() as int));
    assert(v =~= v.subrange(0, k) + v.subrange(k, v.len() as int));
}

/// The entries of `v` from the last to the first.
fn reversed<T>(v: Vec<T>) -> (r: Vec<T>)
    ensures
        r@ == v@.reverse(),
{
    let ghost all = v@;
    let mut v = v;
    let mut r: Vec<T> = Vec::new();
    loop
        invariant_except_break
            v@.len() + r@.len() == all.len(),
            v@ == all.subrange(0, v@.len() as int),
            forall|i: int| 0 <= i < r@.len() ==> #[trigger] r@[i] == all[all.len() - 1 - i],
        ensures
            r@ == all.reverse(),
        decreases v@.len(),
    {
        match v.pop() {
            Some(x) => {
                r.push(x);
            },
            None => {
                assert(r@ =~= all.reverse());
                break;
            },
        }
    }
    r
}

/// Merges two lists that are in order. Of two entries neither of which has to
/// precede the other, that of `a` comes first.
fn merge<T: Ordered>(a: Vec<T>, b: Vec<T>) -> (r: Vec<T>)
    requires
        in_order(a@),
        in_order(b@),
    ensures
        in_order(r@),
        r@.to_multiset() == a@.to_multiset().add(b@.to_multiset()),
{
    let ghost whole = a@.to_multiset().add(b@.to_multiset());
    let mut a = a;
    let mut b = b;
    // From the last entry down to the first.
    let mut down: Vec<T> = Vec::new();
    proof {
        broadcast use vstd::seq_lib::group_to_multiset_ensures;

        assert(down@.to_multiset() =~= vstd::multiset::Multiset::empty());
        assert(a@.to_multiset().add(b@.to_multiset()).add(down@.to_multiset()) =~= whole);
    }
    while a.len() > 0 || b.len() > 0
        invariant
            in_order(a@),
            in_order(b@),
            in_order(down@.reverse()),
            all_before(a@, down@),
            all_before(b@, down@),
            a@.to_multiset().add(b@.to_multiset()).add(down@.to_multiset()) == whole,
        decreases a@.len() + b@.len(),
    {
        let ghost a0 = a@;
        let ghost b0 = b@;
        let ghost d0 = down@;
        let take_a = if a.len() == 0 {
            false
        } else if b.len() == 0 {
            true
        } else {
            b[b.len() - 1].is_before(&a[a.len() - 1])
        };
        let next = if take_a {
            a.pop()
        } else {
            b.pop()
        };
        match next {
            Some(x) => {
                down.push(x);
                proof {
                    broadcast use vstd::seq_lib::group_to_multiset_ensures;

                    if take_a {
                        lemma_pop(a0);
                        assert(a@ =~= a0.drop_last());
                        if b0.len() > 0 {
                            T::asymmetric(b0.last(), a0.last());
                        }
                    } else {
                        lemma_pop(b0);
                        assert(b@ =~= b0.drop_last());
                    }
                    assert(down@ =~= d0.push(x));
                    assert(a@.to_multiset().add(b@.to_multiset()).add(down@.to_multiset())
                        =~= a0.to_multiset().add(b0.to_multiset()).add(d0.to_multiset()));
                    assert forall|i: int, j: int|
                        0 <= i < a@.len() && 0 <= j < down@.len() implies !(
                    #[trigger] down@[j]).precedes(#[trigger] a@[i]) by {
                        assert(a@[i] == a0[i]);
                        if j < d0.len() {
                            assert(down@[j] == d0[j]);
                        } else if !take_a {
                            if i < a0.len() - 1 {
                                assert(!a0.last().precedes(a0[i]));
                            } else {
                                T::asymmetric(a0[i], a0[i]);
                            }
                            T::transitive(a0[i], a0.last(), x);
                        }
                    }
                    assert forall|i: int, j: int|
                        0 <= i < b@.len() && 0 <= j < down@.len() implies !(
                    #[trigger] down@[j]).precedes(#[trigger] b@[i]) by {
                        assert(b@[i] == b0[i]);
                        if j < d0.len() {
                            assert(down@[j] == d0[j]);
                        } else if take_a {
                            if i < b0.len() - 1 {
                                assert(!b0.last().precedes(b0[i]));
                            } else {
                                T::asymmetric(b0[i], b0[i]);
                            }
                            T::transitive(b0[i], b0.last(), x);
                        }
                    }
                    let up = down@.reverse();
                    assert forall|i: int, j: int| 0 <= i < j < up.len() implies !(
                    #[trigger] up[j]).precedes(#[trigger] up[i]) by {
                        let n = d0.len() as int;
                        assert(up[j] == d0[n - j]);
                        if i > 0 {
                            assert(up[i] == d0[n - i]);
                            assert(d0.reverse()[i - 1] == up[i]);
                            assert(d0.reverse()[j - 1] == up[j]);
                        } else if take_a {
                            assert(a0[a0.len() - 1] == x);
                        } else {
                            assert(b0[b0.len() - 1] == x);
                        }
                    }
                }
            },
            None => {},
        }
    }
    proof {
        broadcast use vstd::seq_lib::group_to_multiset_ensures;

        down@.lemma_reverse_to_multiset();
        assert(a@ =~= Seq::empty());
        assert(b@ =~= Seq::empty());
        assert(a@.to_multiset() =~= vstd::multiset::Multiset::empty());
        assert(b@.to_multiset() =~= vstd::multiset::Multiset::empty());
        assert(down@.to_multiset() =~= whole);
    }
    reversed(down)
}

/// The entries of `v` in order.
pub fn sorted<T: Ordered>(v: Vec<T>) -> (r: Vec<T>)
    ensures
        in_order(r@),
        r@.to_multiset() == v@.to_multiset(),
    decreases v@.len(),
{
    let n: usize = v.len();
    if n < 2 {
        return v;
    }
    let ghost all = v@;
    let mut low = v;
    let high = low.split_off(n / 2);
    proof {
        lemma_parts(all, (n / 2) as int);
    }
    let low = sorted(low);
    let high = sorted(high);
    merge(low, high)
}

} // verus!
