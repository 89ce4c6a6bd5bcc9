//! What the benchmark programs compute: reproducible random numbers, grouped
//! digits, and where sample edits and viewports fall.

use crate::numfmt::{group3, grouped_digits};
use crate::table::CellRef;
use crate::text::{decimal, push_decimal};
use vstd::prelude::*;

verus! {

/// A xorshift generator: runs are reproducible.
#[derive(Clone, Copy, Debug, PartialEq, Eq, Structural)]
pub struct Rng(pub u64);

/// The number after `x`.
pub open spec fn shifted(x: u64) -> u64 {
    let a = x ^ (x << 13);
    let b = a ^ (a >> 7);
    b ^ (b << 17)
}

impl Rng {
    /// The next number, which is the state to go on from too.
    pub fn next_u64(&mut self) -> (x: u64)
        ensures
            x == shifted(old(self).0),
            final(self).0 == x,
    {
        let mut x: u64 = self.0;
        x = x ^ (x << 13);
        x = x ^ (x >> 7);
        x = x ^ (x << 17);
        self.0 = x;
        x
    }

    /// A number below `n`.
    pub fn below(&mut self, n: u64) -> (x: u64)
        requires
            n > 0,
        ensures
            x == shifted(old(self).0) % n,
            x < n,
            final(self).0 == shifted(old(self).0),
    {
        self.next_u64() % n
    }
}

/// A generator that does not start at zero never gets there, so it never stops
/// producing.
pub proof fn a_generator_never_runs_dry(x: u64)
    requires
        x != 0,
    ensures
        shifted(x) != 0,
{
    assert(x != 0 ==> ((((x ^ (x << 13)) ^ ((x ^ (x << 13)) >> 7)) ^ (((x ^ (x << 13)) ^ ((x ^ (x
        << 13)) >> 7)) << 17)) != 0)) by (bit_vector);
}

/// A count with its digits grouped by three, a comma between the groups.
pub fn fmt_int(n: usize) -> (r: String)
    ensures
        r@ == grouped_digits(decimal(n as nat)),
{
    let mut digits = String::new();
    push_decimal(&mut digits, n as u64);
    assert(digits@ =~= decimal(n as nat));
    group3(digits.as_str())
}

/// Where the sample edit `i` falls: edits are spread over the whole file, so that
/// streaming past the first stripe is covered too.
pub fn edit_place(i: usize, rows: usize, cols: usize) -> (c: CellRef)
    requires
        i < 100,
        0 < rows <= u32::MAX,
        0 < cols <= u32::MAX,
    ensures
        c.row < rows,
        c.col < cols,
        c.row == (i * if rows >= 100 {
            rows as int / 100
        } else {
            1
        }) % rows as int,
        c.col == i % cols,
{
    let stride: usize = if rows >= 100 {
        rows / 100
    } else {
        1
    };
    assert(i * stride <= 100 * 0x1_0000_0000) by (nonlinear_arith)
        requires
            i < 100,
            stride <= 0x1_0000_0000,
    ;
    let at: u64 = i as u64 * stride as u64;
    CellRef::new((at % rows as u64) as u32, (i % cols) as u32)
}

} // verus!
