//! Cell values.
//!
//! Numbers travel through the storage layer as IEEE-754 bit patterns. Storing,
//! moving, comparing and ordering a number needs nothing but its bits, so the
//! two wrappers here carry exactly those and say in integer terms what "less
//! than" and "equal" mean. Arithmetic belongs to the callers.

use vstd::prelude::*;

verus! {

/// The sign bit of a 64-bit float.
pub const SIGN64: u64 = 0x8000_0000_0000_0000;

/// The bit pattern of positive infinity, and so the smallest magnitude that
/// is not finite.
pub const INF64: u64 = 0x7ff0_0000_0000_0000;

/// The bit pattern of negative infinity.
pub const NEG_INF64: u64 = 0xfff0_0000_0000_0000;

/// The canonical quiet NaN.
pub const NAN64: u64 = 0x7ff8_0000_0000_0000;

/// The sign bit of a 32-bit float.
pub const SIGN32: u32 = 0x8000_0000;

/// The bit pattern of positive infinity in 32 bits.
pub const INF32: u32 = 0x7f80_0000;

/// A 64-bit float, held as its bit pattern.
///
/// `==` is identity of bit patterns. The numeric comparison, in which the two
/// zeros are equal and a NaN equals nothing, is [`F64::num_eq`].
#[derive(Clone, Copy, Debug, PartialEq, Eq, Hash, Structural)]
pub struct F64(pub u64);

impl F64 {
    /// The bits without the sign.
    pub open spec fn magnitude_spec(self) -> int {
        if self.0 >= SIGN64 {
            self.0 - SIGN64
        } else {
            self.0 as int
        }
    }

    pub open spec fn nan_spec(self) -> bool {
        self.magnitude_spec() > INF64
    }

    pub open spec fn finite_spec(self) -> bool {
        self.magnitude_spec() < INF64
    }

    /// Where a number that is not a NaN stands on the number line: its
    /// magnitude, negated when the sign bit is set. The two zeros share a rank.
    pub open spec fn rank(self) -> int {
        if self.0 >= SIGN64 {
            -self.magnitude_spec()
        } else {
            self.magnitude_spec()
        }
    }

    /// Numeric `<`: false whenever a NaN is involved.
    pub open spec fn lt_spec(self, other: F64) -> bool {
        !self.nan_spec() && !other.nan_spec() && self.rank() < other.rank()
    }

    /// Numeric `==`: false whenever a NaN is involved.
    pub open spec fn eq_num_spec(self, other: F64) -> bool {
        !self.nan_spec() && !other.nan_spec() && self.rank() == other.rank()
    }

    pub(crate) fn magnitude(self) -> (m: u64)
        ensures
            m == self.magnitude_spec(),
    {
        if self.0 >= SIGN64 {
            self.0 - SIGN64
        } else {
            self.0
        }
    }

    pub fn is_nan(self) -> (b: bool)
        ensures
            b == self.nan_spec(),
    {
        self.magnitude() > INF64
    }

    pub fn is_finite(self) -> (b: bool)
        ensures
            b == self.finite_spec(),
    {
        self.magnitude() < INF64
    }

    /// Whether this is one of the two zeros.
    pub fn is_zero(self) -> (b: bool)
        ensures
            b == (self.rank() == 0),
    {
        self.magnitude() == 0
    }

    /// Numeric `self < other`.
    pub fn less_than(self, other: F64) -> (b: bool)
        ensures
            b == self.lt_spec(other),
    {
        if self.is_nan() || other.is_nan() {
            return false;
        }
        let a: u64 = self.magnitude();
        let c: u64 = other.magnitude();
        let a_neg = self.0 >= SIGN64;
        let c_neg = other.0 >= SIGN64;
        if a_neg && c_neg {
            c < a
        } else if a_neg {
            a > 0 || c > 0
        } else if c_neg {
            false
        } else {
            a < c
        }
    }

    /// Numeric `self == other`.
    pub fn num_eq(self, other: F64) -> (b: bool)
        ensures
            b == self.eq_num_spec(other),
    {
        if self.is_nan() || other.is_nan() {
            return false;
        }
        self.0 == other.0 || (self.magnitude() == 0 && other.magnitude() == 0)
    }
}

/// The smallest number, NaNs passed over; positive infinity where there is none.
pub open spec fn smallest(v: Seq<F64>) -> F64
    decreases v.len(),
{
    if v.len() == 0 {
        F64(INF64)
    } else if v.last().lt_spec(smallest(v.drop_last())) {
        v.last()
    } else {
        smallest(v.drop_last())
    }
}

/// The largest number, NaNs passed over; negative infinity where there is none.
pub open spec fn largest(v: Seq<F64>) -> F64
    decreases v.len(),
{
    if v.len() == 0 {
        F64(NEG_INF64)
    } else if largest(v.drop_last()).lt_spec(v.last()) {
        v.last()
    } else {
        largest(v.drop_last())
    }
}

pub fn smallest_of(v: &Vec<F64>) -> (m: F64)
    ensures
        m == smallest(v@),
{
    let mut m = F64(INF64);
    let mut i: usize = 0;
    while i < v.len()
        invariant
            i <= v@.len(),
            m == smallest(v@.subrange(0, i as int)),
        decreases v@.len() - i,
    {
        assert(v@.subrange(0, i + 1).drop_last() =~= v@.subrange(0, i as int));
        if v[i].less_than(m) {
            m = v[i];
        }
        i = i + 1;
    }
    assert(v@.subrange(0, v@.len() as int) =~= v@);
    m
}

pub fn largest_of(v: &Vec<F64>) -> (m: F64)
    ensures
        m == largest(v@),
{
    let mut m = F64(NEG_INF64);
    let mut i: usize = 0;
    while i < v.len()
        invariant
            i <= v@.len(),
            m == largest(v@.subrange(0, i as int)),
        decreases v@.len() - i,
    {
        assert(v@.subrange(0, i + 1).drop_last() =~= v@.subrange(0, i as int));
        if m.less_than(v[i]) {
            m = v[i];
        }
        i = i + 1;
    }
    assert(v@.subrange(0, v@.len() as int) =~= v@);
    m
}

/// A 32-bit float, held as its bit pattern. Read as [`F64`] is.
#[derive(Clone, Copy, Debug, PartialEq, Eq, Hash, Structural)]
pub struct F32(pub u32);

impl F32 {
    pub open spec fn magnitude_spec(self) -> int {
        if self.0 >= SIGN32 {
            self.0 - SIGN32
        } else {
            self.0 as int
        }
    }

    pub open spec fn nan_spec(self) -> bool {
        self.magnitude_spec() > INF32
    }

    pub open spec fn rank(self) -> int {
        if self.0 >= SIGN32 {
            -self.magnitude_spec()
        } else {
            self.magnitude_spec()
        }
    }

    /// Numeric `<`: false whenever a NaN is involved.
    pub open spec fn lt_spec(self, other: F32) -> bool {
        !self.nan_spec() && !other.nan_spec() && self.rank() < other.rank()
    }

    /// Whether this is one of the two zeros.
    pub fn is_zero(self) -> (b: bool)
        ensures
            b == (self.rank() == 0),
    {
        self.0 == 0 || self.0 == SIGN32
    }

    /// Numeric `==`: false whenever a NaN is involved.
    pub open spec fn eq_num_spec(self, other: F32) -> bool {
        !self.nan_spec() && !other.nan_spec() && self.rank() == other.rank()
    }

    /// Numeric `self == other`.
    pub fn num_eq(self, other: F32) -> (b: bool)
        ensures
            b == self.eq_num_spec(other),
    {
        if self.is_nan() || other.is_nan() {
            return false;
        }
        self.0 == other.0 || (self.is_zero() && other.is_zero())
    }

    pub fn is_nan(self) -> (b: bool)
        ensures
            b == self.nan_spec(),
    {
        if self.0 >= SIGN32 {
            self.0 - SIGN32 > INF32
        } else {
            self.0 > INF32
        }
    }

    /// Numeric `self < other`.
    pub fn less_than(self, other: F32) -> (b: bool)
        ensures
            b == self.lt_spec(other),
    {
        let a_neg = self.0 >= SIGN32;
        let c_neg = other.0 >= SIGN32;
        let a: u32 = if a_neg {
            self.0 - SIGN32
        } else {
            self.0
        };
        let c: u32 = if c_neg {
            other.0 - SIGN32
        } else {
            other.0
        };
        if a > INF32 || c > INF32 {
            return false;
        }
        if a_neg && c_neg {
            c < a
        } else if a_neg {
            a > 0 || c > 0
        } else if c_neg {
            false
        } else {
            a < c
        }
    }
}

/// Text in a cell: an id into a string arena.
#[derive(Clone, Copy, Debug, PartialEq, Eq, Hash, PartialOrd, Ord, Structural)]
pub struct StrId(pub u32);

/// What a cell shows in place of a result that could not be computed.
#[derive(Clone, Copy, Debug, PartialEq, Eq, Hash, Structural)]
pub enum ErrorKind {
    DivZero,
    Value,
    Ref,
    Name,
    Num,
    NotAvailable,
    Null,
    Circular,
}

/// One cell's value.
#[derive(Clone, Copy, Debug, PartialEq, Eq, Structural)]
pub enum Value {
    Empty,
    Number(F64),
    Bool(bool),
    Text(StrId),
    Error(ErrorKind),
}

impl Value {
    pub fn is_empty(&self) -> (b: bool)
        ensures
            b == (*self is Empty),
    {
        match self {
            Value::Empty => true,
            _ => false,
        }
    }

    /// Two values are the same when they are of one kind and hold the same
    /// thing, numbers being compared numerically.
    pub open spec fn same_spec(self, other: Value) -> bool {
        match (self, other) {
            (Value::Number(a), Value::Number(b)) => a.eq_num_spec(b),
            _ => self == other,
        }
    }

    pub fn same(&self, other: &Value) -> (b: bool)
        ensures
            b == self.same_spec(*other),
    {
        match (self, other) {
            (Value::Number(a), Value::Number(b)) => a.num_eq(*b),
            _ => *self == *other,
        }
    }
}

/// Numeric `<` is a strict order: nothing is below itself, and it is transitive.
pub proof fn less_than_is_a_strict_order(a: F64, b: F64, c: F64)
    ensures
        !a.lt_spec(a),
        a.lt_spec(b) && b.lt_spec(c) ==> a.lt_spec(c),
        a.lt_spec(b) ==> !b.lt_spec(a),
        !a.nan_spec() && !b.nan_spec() ==> (a.lt_spec(b) || b.lt_spec(a) || a.eq_num_spec(b)),
{
}

/// The smallest of finite numbers is one of them, and none is below it.
pub proof fn the_smallest_is_among_them(v: Seq<F64>)
    requires
        v.len() > 0,
        forall|i: int| 0 <= i < v.len() ==> (#[trigger] v[i]).finite_spec(),
    ensures
        v.contains(smallest(v)),
        forall|i: int| 0 <= i < v.len() ==> !(#[trigger] v[i]).lt_spec(smallest(v)),
    decreases v.len(),
{
    let rest = v.drop_last();
    assert(v.last() == v[v.len() - 1]);
    assert(v.last().finite_spec());
    if rest.len() > 0 {
        assert forall|i: int| 0 <= i < rest.len() implies (#[trigger] rest[i]).finite_spec() by {
            assert(rest[i] == v[i]);
        }
        the_smallest_is_among_them(rest);
        let k = choose|k: int| 0 <= k < rest.len() && rest[k] == smallest(rest);
        assert(v[k] == smallest(rest));
        assert forall|i: int| 0 <= i < v.len() implies !(#[trigger] v[i]).lt_spec(smallest(v)) by {
            if i < rest.len() {
                assert(rest[i] == v[i]);
            }
        }
    } else {
        assert(smallest(rest) == F64(INF64));
    }
}

/// The largest of finite numbers is one of them, and none is above it.
pub proof fn the_largest_is_among_them(v: Seq<F64>)
    requires
        v.len() > 0,
        forall|i: int| 0 <= i < v.len() ==> (#[trigger] v[i]).finite_spec(),
    ensures
        v.contains(largest(v)),
        forall|i: int| 0 <= i < v.len() ==> !largest(v).lt_spec(#[trigger] v[i]),
    decreases v.len(),
{
    let rest = v.drop_last();
    assert(v.last() == v[v.len() - 1]);
    assert(v.last().finite_spec());
    if rest.len() > 0 {
        assert forall|i: int| 0 <= i < rest.len() implies (#[trigger] rest[i]).finite_spec() by {
            assert(rest[i] == v[i]);
        }
        the_largest_is_among_them(rest);
        let k = choose|k: int| 0 <= k < rest.len() && rest[k] == largest(rest);
        assert(v[k] == largest(rest));
        assert forall|i: int| 0 <= i < v.len() implies !largest(v).lt_spec(#[trigger] v[i]) by {
            if i < rest.len() {
                assert(rest[i] == v[i]);
            }
        }
    } else {
        assert(largest(rest) == F64(NEG_INF64));
    }
}

// ------------------------------------------------------- exact arithmetic --

/// A ruler: which numbers are so many whole units, and up to how many of them arithmetic
/// is exact.
pub ghost struct Ruler {
    pub marks: spec_fn(F64) -> Option<int>,
    pub limit: int,
}

impl Ruler {
    /// The number is `n` units.
    pub open spec fn reads(self, x: F64, n: int) -> bool {
        (self.marks)(x) == Some(n)
    }

    /// Within the limit.
    pub open spec fn within(self, n: int) -> bool {
        -self.limit <= n <= self.limit
    }

    /// Zero is no units, and of two numbers the one of fewer units is the less.
    pub open spec fn straight(self) -> bool {
        &&& self.reads(F64(0), 0)
        &&& forall|x: F64, y: F64, a: int, b: int| #[trigger]
            self.reads(x, a) && #[trigger] self.reads(y, b) ==> (x.lt_spec(y) <==> a < b)
        &&& forall|x: F64, a: int| #[trigger] self.reads(x, a) ==> x.finite_spec()
    }

    /// Sums are exact.
    pub open spec fn adds<A: Fn(F64, F64) -> F64>(self, plus: A) -> bool {
        forall|x: F64, y: F64, r: F64, a: int, b: int| #[trigger]
            plus.ensures((x, y), r) && #[trigger] self.reads(x, a) && #[trigger] self.reads(y, b)
                && self.within(a + b) ==> self.reads(r, a + b)
    }

    /// Differences are exact.
    pub open spec fn subtracts<A: Fn(F64, F64) -> F64>(self, minus: A) -> bool {
        forall|x: F64, y: F64, r: F64, a: int, b: int| #[trigger]
            minus.ensures((x, y), r) && #[trigger] self.reads(x, a) && #[trigger] self.reads(y, b)
                && self.within(a - b) ==> self.reads(r, a - b)
    }

    /// Products are exact.
    pub open spec fn multiplies<A: Fn(F64, F64) -> F64>(self, times: A) -> bool {
        forall|x: F64, y: F64, r: F64, a: int, b: int| #[trigger]
            times.ensures((x, y), r) && #[trigger] self.reads(x, a) && #[trigger] self.reads(y, b)
                && self.within(a * b) ==> self.reads(r, a * b)
    }

    /// Shares that come out even are exact.
    pub open spec fn shares<A: Fn(F64, u64) -> F64>(self, share: A) -> bool {
        forall|x: F64, n: u64, r: F64, a: int| #[trigger]
            share.ensures((x, n), r) && #[trigger] self.reads(x, a * n) && n > 0 && self.within(
                a * n,
            ) ==> self.reads(r, a)
    }

    /// Counts are exact.
    pub open spec fn counts<A: Fn(u64) -> F64>(self, number: A) -> bool {
        forall|n: u64, r: F64| #[trigger] number.ensures((n,), r) && n <= self.limit ==> self.reads(
            r,
            n as int,
        )
    }
}

/// The units of some numbers together.
pub open spec fn units_of(ruler: Ruler, v: Seq<F64>) -> int
    decreases v.len(),
{
    if v.len() == 0 {
        0
    } else {
        units_of(ruler, v.drop_last()) + (ruler.marks)(v.last())->0
    }
}

/// Every number is whole units, and not more than `most` of them.
pub open spec fn all_marked(ruler: Ruler, v: Seq<F64>, most: int) -> bool {
    forall|i: int|
        0 <= i < v.len() ==> (ruler.marks)(#[trigger] v[i]) is Some && -most <= (ruler.marks)(
            v[i],
        )->0 <= most
}

pub proof fn lemma_units_bound(ruler: Ruler, v: Seq<F64>, most: int)
    requires
        all_marked(ruler, v, most),
        most >= 0,
    ensures
        -(most * v.len()) <= units_of(ruler, v) <= most * v.len(),
    decreases v.len(),
{
    if v.len() > 0 {
        let rest = v.drop_last();
        assert forall|i: int| 0 <= i < rest.len() implies (ruler.marks)(#[trigger] rest[i]) is Some
            && -most <= (ruler.marks)(rest[i])->0 <= most by {
            assert(rest[i] == v[i]);
        }
        lemma_units_bound(ruler, rest, most);
        assert(v.last() == v[v.len() - 1]);
        assert(most * v.len() == most * rest.len() + most) by (nonlinear_arith)
            requires
                v.len() == rest.len() + 1,
        ;
    } else {
        assert(most * v.len() == 0) by (nonlinear_arith)
            requires
                v.len() == 0,
        ;
    }
}

/// Two values are the same when they are one number on the number line, or one and the
/// same text, truth value, error or nothing.
pub proof fn values_are_the_same_by_what_they_are(a: Value, b: Value, x: F64, y: F64)
    requires
        !x.nan_spec(),
        !y.nan_spec(),
    ensures
        Value::Number(x).same_spec(Value::Number(y)) <==> x.rank() == y.rank(),
        !(a is Number) ==> (a.same_spec(b) <==> a == b),
        a is Number && !(b is Number) ==> !a.same_spec(b),
{
}

} // verus!
