//! A sparse map from cells to whatever is attached to them.

use crate::capacity::map_capacity;
use crate::table::CellRef;
use std::collections::HashMap;
use vstd::prelude::*;
use vstd::std_specs::iter::IteratorSpec;

verus! {

broadcast use vstd::std_specs::hash::group_hash_axioms;

/// What is attached to some cells, in memory proportional to their number.
#[derive(Debug)]
pub struct CellMap<T> {
    slots: HashMap<u64, T>,
}

/// A cell's address as one number, row by row.
pub open spec fn slot(cell: CellRef) -> u64 {
    (cell.row * 0x1_0000_0000 + cell.col) as u64
}

/// The cell with that number.
pub open spec fn cell_of(n: u64) -> CellRef {
    CellRef { row: (n / 0x1_0000_0000) as u32, col: (n % 0x1_0000_0000) as u32 }
}

/// Cells and their numbers stand for one another.
pub proof fn lemma_slots()
    ensures
        forall|c: CellRef| #![trigger slot(c)] cell_of(slot(c)) == c,
        forall|n: u64| #![trigger cell_of(n)] slot(cell_of(n)) == n,
{
    assert forall|c: CellRef| #![trigger slot(c)] cell_of(slot(c)) == c by {
        assert(0 <= c.row * 0x1_0000_0000 + c.col <= u64::MAX);
    }
}

pub fn slot_of(cell: CellRef) -> (n: u64)
    ensures
        n == slot(cell),
{
    cell.row as u64 * 0x1_0000_0000 + cell.col as u64
}

pub fn to_cell(n: u64) -> (c: CellRef)
    ensures
        c == cell_of(n),
{
    CellRef::new((n / 0x1_0000_0000) as u32, (n % 0x1_0000_0000) as u32)
}

impl<T> View for CellMap<T> {
    type V = Map<CellRef, T>;

    closed spec fn view(&self) -> Map<CellRef, T> {
        Map::new(
            |c: CellRef| self.slots@.contains_key(slot(c)),
            |c: CellRef| self.slots@[slot(c)],
        )
    }
}

impl<T> CellMap<T> {
    pub fn new() -> (m: CellMap<T>)
        ensures
            m@ == Map::<CellRef, T>::empty(),
    {
        let m = CellMap { slots: HashMap::new() };
        assert(m@ =~= Map::<CellRef, T>::empty());
        m
    }

    proof fn lemma_len(self)
        ensures
            self@.dom().finite(),
            self@.dom().len() == self.slots@.dom().len(),
    {
        lemma_slots();
        let f = |n: u64| cell_of(n);
        let from = self.slots@.dom();
        let to = self@.dom();
        assert(from.map(f) =~= to) by {
            assert forall|c: CellRef| to.contains(c) implies from.map(f).contains(c) by {
                assert(from.contains(slot(c)));
                assert(f(slot(c)) == c);
            }
            assert forall|c: CellRef| from.map(f).contains(c) implies to.contains(c) by {
                let n = choose|n: u64| from.contains(n) && f(n) == c;
                assert(slot(c) == n);
            }
        }
        assert(vstd::relations::injective_on(f, from)) by {
            assert forall|a: u64, b: u64|
                from.contains(a) && from.contains(b) && #[trigger] f(a) == #[trigger] f(
                    b,
                ) implies a == b by {
                assert(slot(cell_of(a)) == a);
                assert(slot(cell_of(b)) == b);
            }
        }
        vstd::set_lib::lemma_map_size(from, to, f);
    }

    pub fn len(&self) -> (n: usize)
        ensures
            n == self@.dom().len(),
            self@.dom().finite(),
    {
        proof {
            self.lemma_len();
        }
        self.slots.len()
    }

    /// How many entries there is room for.
    pub(crate) fn capacity(&self) -> (room: usize)
        ensures
            room >= self@.dom().len(),
    {
        proof {
            self.lemma_len();
        }
        map_capacity(&self.slots)
    }

    pub fn is_empty(&self) -> (b: bool)
        ensures
            b == (self@ == Map::<CellRef, T>::empty()),
    {
        let n: usize = self.len();
        proof {
            if n == 0 {
                assert(self@ =~= Map::<CellRef, T>::empty());
            }
        }
        n == 0
    }

    pub fn get(&self, cell: CellRef) -> (r: Option<&T>)
        ensures
            match r {
                Some(v) => self@.contains_key(cell) && *v == self@[cell],
                None => !self@.contains_key(cell),
            },
    {
        let n: u64 = slot_of(cell);
        self.slots.get(&n)
    }

    /// Attaches a value, handing back the one that was there.
    pub fn insert(&mut self, cell: CellRef, value: T) -> (r: Option<T>)
        ensures
            final(self)@ == old(self)@.insert(cell, value),
            match r {
                Some(v) => old(self)@.contains_key(cell) && v == old(self)@[cell],
                None => !old(self)@.contains_key(cell),
            },
    {
        let n: u64 = slot_of(cell);
        let r = self.slots.insert(n, value);
        proof {
            lemma_slots();
            assert(self@ =~= old(self)@.insert(cell, value)) by {
                assert forall|c: CellRef| c != cell implies slot(c) != slot(cell) by {
                    assert(cell_of(slot(c)) == c);
                    assert(cell_of(slot(cell)) == cell);
                }
            }
        }
        r
    }

    /// Detaches what is there and hands it back.
    pub fn remove(&mut self, cell: CellRef) -> (r: Option<T>)
        ensures
            final(self)@ == old(self)@.remove(cell),
            match r {
                Some(v) => old(self)@.contains_key(cell) && v == old(self)@[cell],
                None => !old(self)@.contains_key(cell),
            },
    {
        let n: u64 = slot_of(cell);
        let r = self.slots.remove(&n);
        proof {
            lemma_slots();
            assert(self@ =~= old(self)@.remove(cell)) by {
                assert forall|c: CellRef| c != cell implies slot(c) != slot(cell) by {
                    assert(cell_of(slot(c)) == c);
                    assert(cell_of(slot(cell)) == cell);
                }
            }
        }
        r
    }

    /// Every cell that has something attached, once, in no particular order.
    pub fn cells(&self) -> (out: Vec<CellRef>)
        ensures
            out@.no_duplicates(),
            out@.to_set() == self@.dom(),
    {
        let mut out: Vec<CellRef> = Vec::new();
        let ghost keys: Seq<u64> = self.slots.keys().remaining().unref();
        for k in it: self.slots.keys()
            invariant
                it.seq() == self.slots.keys().remaining(),
                keys == it.seq().unref(),
                keys.no_duplicates(),
                keys.to_set() == self.slots@.dom(),
                out@.len() == it.index(),
                forall|i: int| 0 <= i < out@.len() ==> #[trigger] out@[i] == cell_of(keys[i]),
        {
            out.push(to_cell(*k));
        }
        proof {
            lemma_slots();
            assert forall|i: int, j: int|
                0 <= i < out@.len() && 0 <= j < out@.len() && i != j implies out@[i]
                != out@[j] by {
                assert(keys[i] != keys[j]);
                assert(slot(cell_of(keys[i])) == keys[i]);
                assert(slot(cell_of(keys[j])) == keys[j]);
            }
            assert forall|c: CellRef| out@.to_set().contains(c) <==> self@.dom().contains(c) by {
                if out@.contains(c) {
                    let i = choose|i: int| 0 <= i < out@.len() && out@[i] == c;
                    assert(keys.to_set().contains(keys[i]));
                    assert(slot(c) == keys[i]);
                }
                if self@.contains_key(c) {
                    assert(keys.to_set().contains(slot(c)));
                    let i = choose|i: int| 0 <= i < keys.len() && keys[i] == slot(c);
                    assert(out@[i] == c);
                }
            }
            assert(out@.to_set() =~= self@.dom());
        }
        out
    }

    pub fn clear(&mut self)
        ensures
            final(self)@ == Map::<CellRef, T>::empty(),
    {
        self.slots.clear();
        assert(self@ =~= Map::<CellRef, T>::empty());
    }
}

} // verus!
