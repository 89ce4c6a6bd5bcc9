//! A map kept as a sorted list: walking it in key order needs no sort, and an
//! entry can be changed in place.

use vstd::prelude::*;

verus! {

/// Values under numeric keys, in the order of the keys.
#[derive(Clone, Debug, PartialEq)]
pub struct KeyedList<T> {
    keys: Vec<u64>,
    values: Vec<T>,
}

/// The keys come in ascending order, each once.
pub open spec fn rising(keys: Seq<u64>) -> bool {
    forall|i: int, j: int| 0 <= i < j < keys.len() ==> keys[i] < keys[j]
}

/// The keys and values as a map.
pub open spec fn paired<T>(keys: Seq<u64>, values: Seq<T>) -> Map<u64, T> {
    Map::new(|k: u64| keys.contains(k), |k: u64| values[keys.index_of(k)])
}

impl<T> View for KeyedList<T> {
    type V = Map<u64, T>;

    closed spec fn view(&self) -> Map<u64, T> {
        paired(self.keys@, self.values@)
    }
}

proof fn lemma_at<T>(keys: Seq<u64>, values: Seq<T>, i: int)
    requires
        rising(keys),
        0 <= i < keys.len(),
    ensures
        paired(keys, values).contains_key(keys[i]),
        paired(keys, values)[keys[i]] == values[i],
{
    assert(keys.contains(keys[i]));
    let j = keys.index_of(keys[i]);
    assert(keys[j] == keys[i]);
    if i < j {
        assert(keys[i] < keys[j]);
    }
    if j < i {
        assert(keys[j] < keys[i]);
    }
}

impl<T> KeyedList<T> {
    pub closed spec fn wf(self) -> bool {
        self.keys@.len() == self.values@.len() && rising(self.keys@)
    }

    /// The keys in order.
    pub closed spec fn order(self) -> Seq<u64> {
        self.keys@
    }

    /// The keys in order are exactly the keys of the map, and the map is finite.
    pub proof fn lemma_order(self)
        requires
            self.wf(),
        ensures
            rising(self.order()),
            forall|k: u64| #[trigger] self@.contains_key(k) == self.order().contains(k),
            self@.dom().finite(),
            self@.len() == self.order().len(),
    {
        assert(self.keys@.no_duplicates()) by {
            assert forall|i: int, j: int|
                0 <= i < self.keys@.len() && 0 <= j < self.keys@.len() && i
                    != j implies self.keys@[i] != self.keys@[j] by {
                if i < j {
                    assert(self.keys@[i] < self.keys@[j]);
                } else {
                    assert(self.keys@[j] < self.keys@[i]);
                }
            }
        }
        assert(self@.dom() =~= self.keys@.to_set());
        self.keys@.unique_seq_to_set();
    }

    pub fn new() -> (m: KeyedList<T>)
        ensures
            m.wf(),
            m@ == Map::<u64, T>::empty(),
    {
        let m = KeyedList { keys: Vec::new(), values: Vec::new() };
        assert(m@ =~= Map::<u64, T>::empty());
        m
    }

    pub fn len(&self) -> (n: usize)
        requires
            self.wf(),
        ensures
            n == self.order().len(),
    {
        self.keys.len()
    }

    /// The key at a place of the order.
    pub fn key(&self, i: usize) -> (k: u64)
        requires
            self.wf(),
            i < self.order().len(),
        ensures
            k == self.order()[i as int],
            self@.contains_key(k),
    {
        proof {
            lemma_at(self.keys@, self.values@, i as int);
        }
        self.keys[i]
    }

    /// The value at a place of the order.
    pub fn value(&self, i: usize) -> (v: &T)
        requires
            self.wf(),
            i < self.order().len(),
        ensures
            *v == self@[self.order()[i as int]],
            self@.contains_key(self.order()[i as int]),
    {
        proof {
            lemma_at(self.keys@, self.values@, i as int);
        }
        &self.values[i]
    }

    /// Where a key stands, or where it would.
    fn search(&self, k: u64) -> (r: Result<usize, usize>)
        requires
            self.wf(),
        ensures
            match r {
                Ok(i) => i < self.keys@.len() && self.keys@[i as int] == k,
                Err(i) => i <= self.keys@.len() && (forall|j: int|
                    0 <= j < i ==> self.keys@[j] < k) && (forall|j: int|
                    i <= j < self.keys@.len() ==> self.keys@[j] > k),
            },
    {
        let mut lo: usize = 0;
        let mut hi: usize = self.keys.len();
        while lo < hi
            invariant
                self.wf(),
                lo <= hi <= self.keys@.len(),
                forall|j: int| 0 <= j < lo ==> self.keys@[j] < k,
                forall|j: int| hi <= j < self.keys@.len() ==> self.keys@[j] > k,
            decreases hi - lo,
        {
            let mid: usize = lo + (hi - lo) / 2;
            let at: u64 = self.keys[mid];
            if at == k {
                return Ok(mid);
            }
            if at < k {
                lo = mid + 1;
            } else {
                hi = mid;
            }
        }
        Err(lo)
    }

    pub fn get(&self, k: u64) -> (r: Option<&T>)
        requires
            self.wf(),
        ensures
            match r {
                Some(v) => self@.contains_key(k) && *v == self@[k],
                None => !self@.contains_key(k),
            },
    {
        match self.search(k) {
            Ok(i) => {
                proof {
                    lemma_at(self.keys@, self.values@, i as int);
                }
                Some(&self.values[i])
            },
            Err(_) => None,
        }
    }

    /// The value under a key, to change in place.
    pub fn get_mut(&mut self, k: u64) -> (r: Option<&mut T>)
        requires
            old(self).wf(),
        ensures
            final(self).wf(),
            match r {
                Some(v) => old(self)@.contains_key(k) && *v == old(self)@[k] && final(self)@
                    == old(self)@.insert(k, *final(v)),
                None => !old(self)@.contains_key(k) && final(self)@ == old(self)@,
            },
    {
        match self.search(k) {
            Ok(i) => {
                proof {
                    lemma_at(self.keys@, self.values@, i as int);
                    lemma_set(self.keys@, self.values@, i as int);
                }
                Some(&mut self.values[i])
            },
            Err(_) => None,
        }
    }

    /// The value under a key, to change in place; `fresh` is put there where there is
    /// none.
    pub fn entry(&mut self, k: u64, fresh: T) -> (r: &mut T)
        requires
            old(self).wf(),
        ensures
            final(self).wf(),
            *r == if old(self)@.contains_key(k) {
                old(self)@[k]
            } else {
                fresh
            },
            final(self)@ == old(self)@.insert(k, *final(r)),
    {
        let i: usize = match self.search(k) {
            Ok(i) => i,
            Err(i) => {
                proof {
                    lemma_insert(self.keys@, self.values@, i as int, k, fresh);
                }
                self.keys.insert(i, k);
                self.values.insert(i, fresh);
                i
            },
        };
        proof {
            lemma_at(self.keys@, self.values@, i as int);
            lemma_set(self.keys@, self.values@, i as int);
            assert forall|v: T| #[trigger] self@.insert(k, v) == old(self)@.insert(k, v) by {
                assert(self@.insert(k, v) =~= old(self)@.insert(k, v));
            }
        }
        &mut self.values[i]
    }

    /// Put a value under a key, handing back the one that was there.
    pub fn insert(&mut self, k: u64, value: T) -> (r: Option<T>)
        requires
            old(self).wf(),
        ensures
            final(self).wf(),
            final(self)@ == old(self)@.insert(k, value),
            match r {
                Some(v) => old(self)@.contains_key(k) && v == old(self)@[k],
                None => !old(self)@.contains_key(k),
            },
    {
        match self.search(k) {
            Ok(i) => {
                proof {
                    lemma_at(self.keys@, self.values@, i as int);
                    lemma_set(self.keys@, self.values@, i as int);
                }
                self.values.push(value);
                Some(self.values.swap_remove(i))
            },
            Err(i) => {
                proof {
                    lemma_insert(self.keys@, self.values@, i as int, k, value);
                }
                self.keys.insert(i, k);
                self.values.insert(i, value);
                None
            },
        }
    }

    /// Take the entry at a place of the order out.
    pub fn remove_at(&mut self, i: usize) -> (v: T)
        requires
            old(self).wf(),
            i < old(self).order().len(),
        ensures
            final(self).wf(),
            final(self).order() == old(self).order().remove(i as int),
            final(self)@ == old(self)@.remove(old(self).order()[i as int]),
            v == old(self)@[old(self).order()[i as int]],
            old(self)@.contains_key(old(self).order()[i as int]),
    {
        proof {
            lemma_at(self.keys@, self.values@, i as int);
            lemma_remove(self.keys@, self.values@, i as int);
        }
        let k = self.keys.remove(i);
        self.values.remove(i)
    }

    /// Take the value under a key out.
    pub fn remove(&mut self, k: u64) -> (r: Option<T>)
        requires
            old(self).wf(),
        ensures
            final(self).wf(),
            final(self)@ == old(self)@.remove(k),
            match r {
                Some(v) => old(self)@.contains_key(k) && v == old(self)@[k],
                None => !old(self)@.contains_key(k),
            },
    {
        match self.search(k) {
            Ok(i) => Some(self.remove_at(i)),
            Err(_) => {
                assert(self@ =~= old(self)@.remove(k));
                None
            },
        }
    }
}

proof fn lemma_set<T>(keys: Seq<u64>, values: Seq<T>, i: int)
    requires
        rising(keys),
        keys.len() == values.len(),
        0 <= i < keys.len(),
    ensures
        forall|v: T| #[trigger]
            paired(keys, values.update(i, v)) == paired(keys, values).insert(keys[i], v),
{
    assert forall|v: T| #[trigger] paired(keys, values.update(i, v)) == paired(keys, values).insert(
        keys[i],
        v,
    ) by {
        let now = values.update(i, v);
        let a = paired(keys, now);
        let b = paired(keys, values).insert(keys[i], v);
        lemma_at(keys, now, i);
        assert forall|k: u64| a.contains_key(k) implies a[k] == b[k] by {
            let j = keys.index_of(k);
            assert(keys[j] == k);
            if j != i {
                assert(now[j] == values[j]);
                if keys[i] == k {
                    if i < j {
                        assert(keys[i] < keys[j]);
                    } else {
                        assert(keys[j] < keys[i]);
                    }
                }
            }
        }
        assert(keys.contains(keys[i]));
        assert(a =~= b);
    }
}

proof fn lemma_insert<T>(keys: Seq<u64>, values: Seq<T>, i: int, k: u64, v: T)
    requires
        rising(keys),
        keys.len() == values.len(),
        0 <= i <= keys.len(),
        forall|j: int| 0 <= j < i ==> keys[j] < k,
        forall|j: int| i <= j < keys.len() ==> keys[j] > k,
    ensures
        rising(keys.insert(i, k)),
        paired(keys.insert(i, k), values.insert(i, v)) == paired(keys, values).insert(k, v),
{
    let ks = keys.insert(i, k);
    let vs = values.insert(i, v);
    assert(rising(ks));
    let a = paired(ks, vs);
    let b = paired(keys, values).insert(k, v);
    lemma_at(ks, vs, i);
    assert forall|x: u64| a.contains_key(x) == b.contains_key(x) by {
        if keys.contains(x) {
            let j = keys.index_of(x);
            if j < i {
                assert(ks[j] == x);
            } else {
                assert(ks[j + 1] == x);
            }
        }
        if ks.contains(x) && x != k {
            let j = ks.index_of(x);
            if j < i {
                assert(keys[j] == x);
            } else {
                assert(keys[j - 1] == x);
            }
        }
    }
    assert forall|x: u64| a.contains_key(x) implies a[x] == b[x] by {
        if x != k {
            let j = ks.index_of(x);
            assert(ks[j] == x);
            lemma_at(ks, vs, j);
            if j < i {
                assert(keys[j] == x);
                lemma_at(keys, values, j);
            } else {
                assert(keys[j - 1] == x);
                lemma_at(keys, values, j - 1);
            }
        }
    }
    assert(a =~= b);
}

proof fn lemma_remove<T>(keys: Seq<u64>, values: Seq<T>, i: int)
    requires
        rising(keys),
        keys.len() == values.len(),
        0 <= i < keys.len(),
    ensures
        rising(keys.remove(i)),
        paired(keys.remove(i), values.remove(i)) == paired(keys, values).remove(keys[i]),
{
    let ks = keys.remove(i);
    let vs = values.remove(i);
    assert(rising(ks));
    let a = paired(ks, vs);
    let b = paired(keys, values).remove(keys[i]);
    assert forall|x: u64| a.contains_key(x) == b.contains_key(x) by {
        if keys.contains(x) && x != keys[i] {
            let j = keys.index_of(x);
            if j < i {
                assert(ks[j] == x);
            } else {
                assert(ks[j - 1] == x);
            }
        }
        if ks.contains(x) {
            let j = ks.index_of(x);
            if j < i {
                assert(keys[j] == x);
                assert(keys[j] < keys[i]);
            } else {
                assert(keys[j + 1] == x);
                assert(keys[i] < keys[j + 1]);
            }
        }
    }
    assert forall|x: u64| a.contains_key(x) implies a[x] == b[x] by {
        let j = ks.index_of(x);
        assert(ks[j] == x);
        lemma_at(ks, vs, j);
        if j < i {
            lemma_at(keys, values, j);
        } else {
            assert(keys[j + 1] == x);
            lemma_at(keys, values, j + 1);
        }
    }
    assert(a =~= b);
}

} // verus!
