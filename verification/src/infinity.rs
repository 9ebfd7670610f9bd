//! The extended-real distance domain: a value is either a finite signed
//! number or the symbol `Infinite` (positive infinity). `Infinite` is
//! greater than every finite value and equal only to itself; adding a
//! finite value to `Infinite` yields `Infinite`.

use vstd::prelude::*;

verus! {

/// A distance in the extended-real domain.
#[derive(Clone, Copy, Debug, PartialEq, Eq, Structural, Hash)]
pub enum Infinity {
    Infinite,
    Number(i64),
}

/// Whether a mathematical integer fits in the finite (`i64`) part of the domain.
pub open spec fn fits_i64(x: int) -> bool {
    i64::MIN <= x <= i64::MAX
}

impl Infinity {
    /// Strict order of the domain: every finite value is below `Infinite`,
    /// finite values compare as integers, and `Infinite` is below nothing.
    pub open spec fn lt_spec(self, other: Infinity) -> bool {
        match (self, other) {
            (Infinity::Number(a), Infinity::Number(b)) => a < b,
            (Infinity::Number(_), Infinity::Infinite) => true,
            (Infinity::Infinite, _) => false,
        }
    }

    pub open spec fn le_spec(self, other: Infinity) -> bool {
        self.lt_spec(other) || self == other
    }

    pub open spec fn is_finite_spec(self) -> bool {
        self is Number
    }

    /// The finite value held, as a mathematical integer.
    pub open spec fn value_spec(self) -> int
        recommends
            self.is_finite_spec(),
    {
        match self {
            Infinity::Number(a) => a as int,
            Infinity::Infinite => 0,
        }
    }

    /// Extended addition: `Infinite` absorbs any addend; two finite values
    /// add as ordinary integers.
    pub open spec fn plus_spec(self, other: Infinity) -> Infinity
        recommends
            self.is_finite_spec() && other.is_finite_spec() ==> fits_i64(
                self.value_spec() + other.value_spec(),
            ),
    {
        match (self, other) {
            (Infinity::Number(a), Infinity::Number(b)) => Infinity::Number((a + b) as i64),
            _ => Infinity::Infinite,
        }
    }

    pub fn is_finite(&self) -> (r: bool)
        ensures
            r == self.is_finite_spec(),
    {
        match self {
            Infinity::Number(_) => true,
            Infinity::Infinite => false,
        }
    }

    pub fn is_infinite(&self) -> (r: bool)
        ensures
            r == !self.is_finite_spec(),
    {
        match self {
            Infinity::Number(_) => false,
            Infinity::Infinite => true,
        }
    }

    /// The finite value held. Callers must know the value is finite.
    pub fn unwrap(&self) -> (r: i64)
        requires
            self.is_finite_spec(),
        ensures
            *self == Infinity::Number(r),
            r == self.value_spec(),
    {
        match self {
            Infinity::Number(a) => *a,
            Infinity::Infinite => unreached(),
        }
    }

    pub fn lt(&self, other: &Infinity) -> (r: bool)
        ensures
            r == self.lt_spec(*other),
    {
        match (self, other) {
            (Infinity::Number(a), Infinity::Number(b)) => *a < *b,
            (Infinity::Number(_), Infinity::Infinite) => true,
            (Infinity::Infinite, _) => false,
        }
    }

    pub fn le(&self, other: &Infinity) -> (r: bool)
        ensures
            r == self.le_spec(*other),
    {
        match (self, other) {
            (Infinity::Number(a), Infinity::Number(b)) => *a <= *b,
            (Infinity::Number(_), Infinity::Infinite) => true,
            (Infinity::Infinite, Infinity::Infinite) => true,
            (Infinity::Infinite, Infinity::Number(_)) => false,
        }
    }

    pub fn gt(&self, other: &Infinity) -> (r: bool)
        ensures
            r == other.lt_spec(*self),
    {
        other.lt(self)
    }

    /// Extended addition, for operands whose finite sum fits the domain.
    pub fn plus(self, other: Infinity) -> (r: Infinity)
        requires
            self.is_finite_spec() && other.is_finite_spec() ==> fits_i64(
                self.value_spec() + other.value_spec(),
            ),
        ensures
            r == self.plus_spec(other),
    {
        match (self, other) {
            (Infinity::Number(a), Infinity::Number(b)) => Infinity::Number(a + b),
            _ => Infinity::Infinite,
        }
    }
}

/// `Infinite` is strictly greater than every finite value, and no value of
/// the domain is strictly greater than `Infinite`.
pub proof fn lemma_infinite_is_greatest(a: Infinity)
    ensures
        a.is_finite_spec() ==> a.lt_spec(Infinity::Infinite),
        !Infinity::Infinite.lt_spec(a),
        a.le_spec(Infinity::Infinite),
{
}

/// The order of the domain is total: of two values, either they are equal
/// or exactly one is strictly below the other.
pub proof fn lemma_order_total(a: Infinity, b: Infinity)
    ensures
        a.lt_spec(b) || b.lt_spec(a) || a == b,
        a.lt_spec(b) ==> !b.lt_spec(a) && a != b,
{
}

} // verus!
