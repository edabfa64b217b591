//! Single-precision binary floating-point numbers, held by their bit pattern.
//!
//! A finite number with sign `s`, biased exponent `e` and fraction `f` has the
//! value `(-1)^s * m * 2^(max(e, 1) - 150)`, where `m` is `f` for `e == 0` and
//! `2^23 + f` otherwise. Every finite value is therefore a whole multiple of
//! `2^-149`; the model of a number is that multiple, an exact integer.

use vstd::prelude::*;
use vstd::arithmetic::power2::lemma_pow2_pos;
use vstd::arithmetic::power2::lemma_pow2_strictly_increases;
use vstd::arithmetic::power2::lemma_pow2_unfold;
use vstd::arithmetic::power2::pow2;

verus! {

/// The weight of the lowest exponent bit: `2^23`.
pub const FRACTION_SPAN: u32 = 0x80_0000;

/// The sign bit: `2^31`.
pub const SIGN_BIT: u32 = 0x8000_0000;

/// The bit pattern of positive infinity; every pattern above it, the sign
/// bit left out, is not a number.
pub const INFINITY_BITS: u32 = 0x7f80_0000;

/// A single-precision number, by its bit pattern.
#[derive(Clone, Copy, Debug, PartialEq, Eq, Structural)]
pub struct Scalar {
    pub bits: u32,
}

impl Scalar {
    /// The pattern without its sign bit.
    pub open spec fn body(self) -> nat {
        (self.bits % SIGN_BIT) as nat
    }

    /// Whether the sign bit is set.
    pub open spec fn negative(self) -> bool {
        self.bits >= SIGN_BIT
    }

    /// The biased exponent, `0..=255`.
    pub open spec fn exponent(self) -> nat {
        self.body() / (FRACTION_SPAN as nat)
    }

    /// The fraction field, `0..2^23`.
    pub open spec fn fraction(self) -> nat {
        self.body() % (FRACTION_SPAN as nat)
    }

    /// Not a number: the exponent is all ones and the fraction is not zero.
    pub open spec fn nan(self) -> bool {
        self.body() > INFINITY_BITS
    }

    /// Neither infinite nor not a number.
    pub open spec fn finite(self) -> bool {
        self.body() < INFINITY_BITS
    }

    /// The absolute value in units of `2^-149`. An infinity gets the value
    /// that the formula of the finite numbers gives its pattern, which lies
    /// above every finite one.
    pub open spec fn magnitude(self) -> nat {
        if self.exponent() == 0 {
            self.fraction()
        } else {
            (FRACTION_SPAN as nat + self.fraction()) * pow2((self.exponent() - 1) as nat)
        }
    }

    /// The value in units of `2^-149`.
    pub open spec fn scaled(self) -> int {
        if self.negative() {
            -(self.magnitude() as int)
        } else {
            self.magnitude() as int
        }
    }
}

/// The magnitude grows strictly with the pattern's body.
pub proof fn lemma_magnitude_increases(a: Scalar, b: Scalar)
    requires
        a.body() < b.body(),
    ensures
        a.magnitude() < b.magnitude(),
{
    let ea = a.exponent();
    let eb = b.exponent();
    let fa = a.fraction();
    let fb = b.fraction();
    let span = FRACTION_SPAN as nat;
    assert(ea <= eb);
    if ea == eb {
        assert(fa < fb);
        if ea != 0 {
            let p = pow2((ea - 1) as nat);
            lemma_pow2_pos((ea - 1) as nat);
            assert((span + fa) * p < (span + fb) * p) by (nonlinear_arith)
                requires
                    fa < fb,
                    p > 0,
            ;
        }
    } else if ea == 0 {
        let p = pow2((eb - 1) as nat);
        lemma_pow2_pos((eb - 1) as nat);
        assert((span + fb) * p >= span) by (nonlinear_arith)
            requires
                p >= 1,
                span >= 0,
                fb >= 0,
        ;
    } else {
        let pa = pow2((ea - 1) as nat);
        let pb = pow2((eb - 1) as nat);
        let pn = pow2(ea);
        lemma_pow2_pos((ea - 1) as nat);
        lemma_pow2_unfold(ea);
        assert(pn == 2 * pa);
        if ea < eb - 1 {
            lemma_pow2_strictly_increases(ea, (eb - 1) as nat);
        }
        assert(pn <= pb);
        assert((span + fa) * pa < span * pn) by (nonlinear_arith)
            requires
                fa < span,
                pa > 0,
                pn == 2 * pa,
        ;
        assert(span * pn <= (span + fb) * pb) by (nonlinear_arith)
            requires
                pn <= pb,
                span >= 0,
                fb >= 0,
                pn >= 0,
        ;
    }
}

/// A pattern without a body stands for zero, and only such a pattern does.
pub proof fn lemma_magnitude_zero(a: Scalar)
    ensures
        a.magnitude() == 0 <==> a.body() == 0,
{
    if a.body() > 0 {
        lemma_magnitude_increases(Scalar { bits: 0 }, a);
    }
}

/// Two patterns stand for the same value exactly when they are the same
/// pattern or both stand for zero.
pub proof fn lemma_scaled_equal(a: Scalar, b: Scalar)
    ensures
        a.scaled() == b.scaled() <==> (a.bits == b.bits || (a.body() == 0 && b.body() == 0)),
{
    lemma_magnitude_zero(a);
    lemma_magnitude_zero(b);
    if a.body() < b.body() {
        lemma_magnitude_increases(a, b);
    }
    if b.body() < a.body() {
        lemma_magnitude_increases(b, a);
    }
}

impl Scalar {
    /// The number with the given bit pattern.
    pub fn from_bits(bits: u32) -> (r: Scalar)
        ensures
            r.bits == bits,
    {
        Scalar { bits }
    }

    /// The bit pattern of the number.
    pub fn to_bits(self) -> (bits: u32)
        ensures
            bits == self.bits,
    {
        self.bits
    }

    /// Positive zero.
    pub fn zero() -> (r: Scalar)
        ensures
            r.bits == 0,
            r.scaled() == 0,
            !r.nan(),
    {
        Scalar { bits: 0 }
    }

    /// Whether the number is not a number.
    pub fn is_nan(self) -> (r: bool)
        ensures
            r == self.nan(),
    {
        self.bits % SIGN_BIT > INFINITY_BITS
    }

    /// Whether the number is neither infinite nor not a number.
    pub fn is_finite(self) -> (r: bool)
        ensures
            r == self.finite(),
    {
        self.bits % SIGN_BIT < INFINITY_BITS
    }

    /// The pattern of `self` with the sign bit flipped.
    pub open spec fn flipped_bits(self) -> u32 {
        if self.bits >= SIGN_BIT {
            (self.bits - SIGN_BIT) as u32
        } else {
            (self.bits + SIGN_BIT) as u32
        }
    }

    /// The number with the opposite sign; not a number stays not a number.
    pub fn neg(self) -> (r: Scalar)
        ensures
            r.bits == self.flipped_bits(),
            r.body() == self.body(),
            r.negative() == !self.negative(),
            r.scaled() == -self.scaled(),
            r.nan() == self.nan(),
    {
        if self.bits >= SIGN_BIT {
            Scalar { bits: self.bits - SIGN_BIT }
        } else {
            Scalar { bits: self.bits + SIGN_BIT }
        }
    }

    /// What `<` means on two numbers: neither is not a number, and the value
    /// of the first lies below the value of the second.
    pub open spec fn below(self, other: Scalar) -> bool {
        !self.nan() && !other.nan() && self.scaled() < other.scaled()
    }

    /// The comparison `self < other`.
    pub fn lt(self, other: Scalar) -> (r: bool)
        ensures
            r == self.below(other),
    {
        let a: u32 = self.bits % SIGN_BIT;
        let b: u32 = other.bits % SIGN_BIT;
        if a > INFINITY_BITS || b > INFINITY_BITS {
            return false;
        }
        proof {
            lemma_magnitude_zero(self);
            lemma_magnitude_zero(other);
            if a < b {
                lemma_magnitude_increases(self, other);
            }
            if b < a {
                lemma_magnitude_increases(other, self);
            }
        }
        if self.bits >= SIGN_BIT {
            if other.bits >= SIGN_BIT {
                b < a
            } else {
                a != 0 || b != 0
            }
        } else {
            if other.bits >= SIGN_BIT {
                false
            } else {
                a < b
            }
        }
    }

    /// The comparison `self > other`.
    pub fn gt(self, other: Scalar) -> (r: bool)
        ensures
            r == other.below(self),
    {
        other.lt(self)
    }

    /// The larger of `self` and `floor`, where `floor` is taken only if
    /// `self` lies below it.
    pub open spec fn raised_to(self, floor: Scalar) -> Scalar {
        if self.below(floor) {
            floor
        } else {
            self
        }
    }

    /// The smaller of `self` and `ceiling`, where `self` is kept only if it
    /// lies below `ceiling`.
    pub open spec fn lowered_to(self, ceiling: Scalar) -> Scalar {
        if self.below(ceiling) {
            self
        } else {
            ceiling
        }
    }

    /// The number clamped to `-max ..= max`: first raised to `-max`, then
    /// lowered to `max`.
    pub open spec fn clamped_abs(self, max: Scalar) -> Scalar {
        self.raised_to(Scalar { bits: max.flipped_bits() }).lowered_to(max)
    }

    /// Clamps the number to `-max ..= max`.
    pub fn clamp_abs(self, max: Scalar) -> (r: Scalar)
        ensures
            r == self.clamped_abs(max),
    {
        let floor = max.neg();
        let raised = if self.lt(floor) {
            floor
        } else {
            self
        };
        if raised.lt(max) {
            raised
        } else {
            max
        }
    }
}

/// A clamped number lies within the limit, whatever was clamped, as long as
/// the limit is a number and not negative.
pub proof fn lemma_clamped_abs_within(x: Scalar, max: Scalar)
    requires
        !max.nan(),
        max.scaled() >= 0,
    ensures
        !x.clamped_abs(max).nan(),
        -max.scaled() <= x.clamped_abs(max).scaled() <= max.scaled(),
{
    let floor = Scalar { bits: max.flipped_bits() };
    assert(floor.body() == max.body());
    assert(floor.negative() == !max.negative());
}

/// A number that already lies within the limit is left as it is.
pub proof fn lemma_clamped_abs_keeps(x: Scalar, max: Scalar)
    requires
        !x.nan(),
        !max.nan(),
        -max.scaled() <= x.scaled() < max.scaled(),
    ensures
        x.clamped_abs(max) == x,
{
    let floor = Scalar { bits: max.flipped_bits() };
    assert(floor.body() == max.body());
    assert(floor.negative() == !max.negative());
}

} // verus!
