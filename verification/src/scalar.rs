use vstd::prelude::*;

verus! {

/// A single-precision IEEE-754 number, held by its bit pattern.
///
/// The library never computes with such a number; it only compares and
/// selects, following the IEEE-754 rules (every comparison with a NaN is
/// false, and `-0` equals `+0`).
#[derive(Clone, Copy, Debug)]
pub struct Scalar {
    pub bits: u32,
}

/// Bit pattern of `+0.0`.
pub const ZERO_BITS: u32 = 0x0000_0000;
/// Bit pattern of `1.0`.
pub const ONE_BITS: u32 = 0x3F80_0000;
/// Bit pattern of `+inf`.
pub const INFINITY_BITS: u32 = 0x7F80_0000;
/// Bit pattern of the sign bit.
pub const SIGN_BIT: u32 = 0x8000_0000;

/// The magnitude part of a bit pattern (the pattern with its sign bit cleared).
pub open spec fn magnitude(bits: u32) -> int {
    if bits >= SIGN_BIT { bits - SIGN_BIT } else { bits as int }
}

/// Whether a bit pattern encodes a NaN.
pub open spec fn is_nan_bits(bits: u32) -> bool {
    magnitude(bits) > INFINITY_BITS
}

/// For a pattern that is not a NaN, an integer that orders patterns as their
/// numbers are ordered: positive patterns grow with the number, negative
/// patterns shrink with it, and both zeros map to `0`.
pub open spec fn order_key(bits: u32) -> int {
    if bits >= SIGN_BIT { -magnitude(bits) } else { bits as int }
}

impl Scalar {
    pub open spec fn is_nan_spec(self) -> bool {
        is_nan_bits(self.bits)
    }

    pub open spec fn key(self) -> int {
        order_key(self.bits)
    }

    /// IEEE `<`.
    pub open spec fn lt_spec(self, other: Scalar) -> bool {
        !self.is_nan_spec() && !other.is_nan_spec() && self.key() < other.key()
    }

    /// IEEE `<=`.
    pub open spec fn le_spec(self, other: Scalar) -> bool {
        !self.is_nan_spec() && !other.is_nan_spec() && self.key() <= other.key()
    }

    /// IEEE `==`.
    pub open spec fn eq_spec(self, other: Scalar) -> bool {
        !self.is_nan_spec() && !other.is_nan_spec() && self.key() == other.key()
    }

    /// The smaller of two numbers, ignoring a NaN: if one of them is a NaN the
    /// other one is the result.
    pub open spec fn min_spec(self, other: Scalar) -> Scalar {
        if self.is_nan_spec() {
            other
        } else if other.is_nan_spec() {
            self
        } else if other.lt_spec(self) {
            other
        } else {
            self
        }
    }

    /// The larger of two numbers, ignoring a NaN: if one of them is a NaN the
    /// other one is the result.
    pub open spec fn max_spec(self, other: Scalar) -> Scalar {
        if self.is_nan_spec() {
            other
        } else if other.is_nan_spec() {
            self
        } else if self.lt_spec(other) {
            other
        } else {
            self
        }
    }

    pub open spec fn abs_spec(self) -> Scalar {
        Scalar { bits: if self.bits >= SIGN_BIT { (self.bits - SIGN_BIT) as u32 } else { self.bits } }
    }

    pub open spec fn neg_spec(self) -> Scalar {
        Scalar { bits: if self.bits >= SIGN_BIT { (self.bits - SIGN_BIT) as u32 } else { (self.bits + SIGN_BIT) as u32 } }
    }

    /// The number whose bit pattern is `bits`.
    pub fn from_bits(bits: u32) -> (r: Scalar)
        ensures
            r.bits == bits,
    {
        Scalar { bits }
    }

    /// `+0.0`.
    pub fn zero() -> (r: Scalar)
        ensures
            r.bits == ZERO_BITS,
    {
        Scalar { bits: ZERO_BITS }
    }

    /// `+inf`.
    pub fn infinity() -> (r: Scalar)
        ensures
            r.bits == INFINITY_BITS,
    {
        Scalar { bits: INFINITY_BITS }
    }

    /// Whether this is a NaN.
    pub fn is_nan(&self) -> (r: bool)
        ensures
            r == self.is_nan_spec(),
    {
        let m = if self.bits >= SIGN_BIT { self.bits - SIGN_BIT } else { self.bits };
        m > INFINITY_BITS
    }

    /// The ordering key as a machine integer.
    fn key_exec(&self) -> (r: i64)
        ensures
            r == self.key(),
    {
        if self.bits >= SIGN_BIT {
            -((self.bits - SIGN_BIT) as i64)
        } else {
            self.bits as i64
        }
    }

    /// IEEE `self < other`.
    pub fn lt(&self, other: &Scalar) -> (r: bool)
        ensures
            r == self.lt_spec(*other),
    {
        if self.is_nan() || other.is_nan() {
            false
        } else {
            self.key_exec() < other.key_exec()
        }
    }

    /// IEEE `self <= other`.
    pub fn le(&self, other: &Scalar) -> (r: bool)
        ensures
            r == self.le_spec(*other),
    {
        if self.is_nan() || other.is_nan() {
            false
        } else {
            self.key_exec() <= other.key_exec()
        }
    }

    /// IEEE `self > other`.
    pub fn gt(&self, other: &Scalar) -> (r: bool)
        ensures
            r == other.lt_spec(*self),
    {
        other.lt(self)
    }

    /// IEEE `self >= other`.
    pub fn ge(&self, other: &Scalar) -> (r: bool)
        ensures
            r == other.le_spec(*self),
    {
        other.le(self)
    }

    /// IEEE `self == other`.
    pub fn equals(&self, other: &Scalar) -> (r: bool)
        ensures
            r == self.eq_spec(*other),
    {
        if self.is_nan() || other.is_nan() {
            false
        } else {
            self.key_exec() == other.key_exec()
        }
    }

    /// The smaller number, ignoring a NaN.
    pub fn min(self, other: Scalar) -> (r: Scalar)
        ensures
            r == self.min_spec(other),
    {
        if self.is_nan() {
            other
        } else if other.is_nan() {
            self
        } else if other.lt(&self) {
            other
        } else {
            self
        }
    }

    /// The larger number, ignoring a NaN.
    pub fn max(self, other: Scalar) -> (r: Scalar)
        ensures
            r == self.max_spec(other),
    {
        if self.is_nan() {
            other
        } else if other.is_nan() {
            self
        } else if self.lt(&other) {
            other
        } else {
            self
        }
    }

    /// The absolute value: the sign bit cleared.
    pub fn abs(&self) -> (r: Scalar)
        ensures
            r == self.abs_spec(),
    {
        if self.bits >= SIGN_BIT {
            Scalar { bits: self.bits - SIGN_BIT }
        } else {
            Scalar { bits: self.bits }
        }
    }

    /// The negation: the sign bit flipped.
    pub fn neg(&self) -> (r: Scalar)
        ensures
            r == self.neg_spec(),
    {
        if self.bits >= SIGN_BIT {
            Scalar { bits: self.bits - SIGN_BIT }
        } else {
            Scalar { bits: self.bits + SIGN_BIT }
        }
    }
}


/// No number is below itself.
pub proof fn lemma_lt_irreflexive(a: Scalar)
    ensures
        !a.lt_spec(a),
{
}

/// `<` is transitive.
pub proof fn lemma_lt_transitive(a: Scalar, b: Scalar, c: Scalar)
    requires
        a.lt_spec(b),
        b.lt_spec(c),
    ensures
        a.lt_spec(c),
{
}

/// `<=` is transitive.
pub proof fn lemma_le_transitive(a: Scalar, b: Scalar, c: Scalar)
    requires
        a.le_spec(b),
        b.le_spec(c),
    ensures
        a.le_spec(c),
{
}

/// A NaN is neither below, nor at most, nor equal to any number, nor any
/// number to it.
pub proof fn lemma_nan_unordered(a: Scalar, b: Scalar)
    requires
        a.is_nan_spec(),
    ensures
        !a.lt_spec(b),
        !b.lt_spec(a),
        !a.le_spec(b),
        !b.le_spec(a),
        !a.eq_spec(b),
        !b.eq_spec(a),
{
}

/// Two numbers that are not NaN are ordered one way or the other: exactly one
/// of `a < b`, `a == b`, `b < a` holds; and `a <= b` is `a < b` or `a == b`.
pub proof fn lemma_trichotomy(a: Scalar, b: Scalar)
    requires
        !a.is_nan_spec(),
        !b.is_nan_spec(),
    ensures
        a.lt_spec(b) || a.eq_spec(b) || b.lt_spec(a),
        !(a.lt_spec(b) && a.eq_spec(b)),
        !(a.lt_spec(b) && b.lt_spec(a)),
        !(a.eq_spec(b) && b.lt_spec(a)),
        a.le_spec(b) == (a.lt_spec(b) || a.eq_spec(b)),
{
}

/// The two zeros are equal numbers.
pub proof fn lemma_zeros_equal()
    ensures
        (Scalar { bits: ZERO_BITS }).eq_spec(Scalar { bits: SIGN_BIT }),
{
}

/// Bit patterns that agree are equal numbers, unless they are a NaN.
pub proof fn lemma_eq_reflexive(a: Scalar)
    requires
        !a.is_nan_spec(),
    ensures
        a.eq_spec(a),
{
}

/// `min` gives one of its arguments; when neither is a NaN it is at most
/// both, and a NaN argument is passed over for the other one.
pub proof fn lemma_min(a: Scalar, b: Scalar)
    ensures
        a.min_spec(b) == a || a.min_spec(b) == b,
        !a.is_nan_spec() && !b.is_nan_spec() ==> a.min_spec(b).le_spec(a) && a.min_spec(b).le_spec(b),
        a.is_nan_spec() ==> a.min_spec(b) == b,
        b.is_nan_spec() && !a.is_nan_spec() ==> a.min_spec(b) == a,
        !a.min_spec(b).is_nan_spec() <== !a.is_nan_spec() || !b.is_nan_spec(),
{
}

/// `max` gives one of its arguments; when neither is a NaN it is at least
/// both, and a NaN argument is passed over for the other one.
pub proof fn lemma_max(a: Scalar, b: Scalar)
    ensures
        a.max_spec(b) == a || a.max_spec(b) == b,
        !a.is_nan_spec() && !b.is_nan_spec() ==> a.le_spec(a.max_spec(b)) && b.le_spec(a.max_spec(b)),
        a.is_nan_spec() ==> a.max_spec(b) == b,
        b.is_nan_spec() && !a.is_nan_spec() ==> a.max_spec(b) == a,
        !a.max_spec(b).is_nan_spec() <== !a.is_nan_spec() || !b.is_nan_spec(),
{
}

/// Negating twice gives the number back; negation reverses the order and
/// keeps NaNs NaN; the absolute value of a number that is not a NaN is at
/// least zero and equals that of its negation.
pub proof fn lemma_neg_abs(a: Scalar, b: Scalar)
    ensures
        a.neg_spec().neg_spec() == a,
        a.neg_spec().is_nan_spec() == a.is_nan_spec(),
        a.lt_spec(b) == b.neg_spec().lt_spec(a.neg_spec()),
        a.neg_spec().abs_spec() == a.abs_spec(),
        !a.is_nan_spec() ==> (Scalar { bits: ZERO_BITS }).le_spec(a.abs_spec()),
{
}

} // verus!
