//! Whole numbers and single-precision numbers: rounding a number to the
//! nearest whole one, and the number nearest to a whole one.

use vstd::prelude::*;
use vstd::arithmetic::div_mod::lemma_div_denominator;
use vstd::arithmetic::div_mod::lemma_div_is_ordered;
use vstd::arithmetic::div_mod::lemma_div_multiples_vanish_quotient;
use vstd::arithmetic::div_mod::lemma_fundamental_div_mod_converse;
use vstd::arithmetic::power2::lemma2_to64;
use vstd::arithmetic::power2::lemma_pow2_adds;
use vstd::arithmetic::power2::lemma_pow2_pos;
use vstd::arithmetic::power2::lemma_pow2_strictly_increases;
use vstd::arithmetic::power2::lemma_pow2_unfold;
use vstd::arithmetic::power2::pow2;
use vstd::bits::lemma_u64_shl_is_mul;
use vstd::bits::lemma_u64_shr_is_div;

use crate::scalar::FRACTION_SPAN;
use crate::scalar::INFINITY_BITS;
use crate::scalar::SIGN_BIT;
use crate::scalar::Scalar;
use crate::scalar::lemma_magnitude_increases;
use crate::scalar::lemma_scaled_equal;

verus! {

impl Scalar {
    /// The whole number nearest to the number's value, a value halfway
    /// between two whole numbers going to the one farther from zero.
    pub open spec fn nearest_whole(self) -> int {
        let whole = ((2 * self.magnitude() + pow2(149)) as int) / (pow2(150) as int);
        if self.negative() {
            -whole
        } else {
            whole
        }
    }

    /// The nearest whole number as far as 32 signed bits hold it: beyond
    /// their range the nearest bound, and zero for what is not a number.
    pub open spec fn rounded(self) -> int {
        if self.nan() {
            0
        } else if self.nearest_whole() < i32::MIN {
            i32::MIN as int
        } else if self.nearest_whole() > i32::MAX {
            i32::MAX as int
        } else {
            self.nearest_whole()
        }
    }
}

/// Below one half, the nearest whole number is zero.
proof fn lemma_small_rounds_to_zero(a: Scalar)
    requires
        a.exponent() < 126,
    ensures
        a.nearest_whole() == 0,
{
    let half = Scalar { bits: 0x3f00_0000 };
    assert(half.exponent() == 126 && half.fraction() == 0);
    lemma_magnitude_increases(a, half);
    lemma2_to64();
    lemma_pow2_adds(23, 125);
    assert(half.magnitude() == pow2(148));
    lemma_pow2_unfold(149);
    lemma_pow2_unfold(150);
    lemma_pow2_pos(148);
    let x = (2 * a.magnitude() + pow2(149)) as int;
    lemma_fundamental_div_mod_converse(x, pow2(150) as int, 0, x);
}

/// From `2^31` on, the nearest whole number is at least `2^31`.
proof fn lemma_large_rounds_out_of_range(a: Scalar)
    requires
        a.exponent() >= 158,
    ensures
        ((2 * a.magnitude() + pow2(149)) as int) / (pow2(150) as int) >= 0x8000_0000,
{
    let edge = Scalar { bits: 0x4f00_0000 };
    assert(edge.exponent() == 158 && edge.fraction() == 0);
    if a.body() > edge.body() {
        lemma_magnitude_increases(edge, a);
    }
    lemma2_to64();
    lemma_pow2_adds(23, 157);
    assert(edge.magnitude() == pow2(180));
    lemma_pow2_adds(31, 150);
    lemma_pow2_unfold(181);
    lemma_pow2_pos(149);
    lemma_pow2_pos(150);
    let low = 2 * pow2(180);
    let x = 2 * a.magnitude() + pow2(149);
    assert(low == pow2(31) * pow2(150));
    lemma_fundamental_div_mod_converse(low as int, pow2(150) as int, pow2(31) as int, 0);
    lemma_div_is_ordered(low as int, x as int, pow2(150) as int);
}

/// A number of at least `2^23` is whole: the units of its magnitude divide
/// out.
proof fn lemma_whole_of_wide(full: nat, s: nat)
    ensures
        ((2 * (full * pow2(149 + s)) + pow2(149)) as int) / (pow2(150) as int) == full * pow2(s),
{
    lemma_pow2_adds(s, 150);
    lemma_pow2_unfold(150 + s);
    lemma_pow2_unfold(150);
    lemma_pow2_pos(149);
    let w = full * pow2(s);
    let unit = pow2(150);
    let below = pow2(149 + s);
    assert(pow2(150 + s) == 2 * below);
    assert(2 * (full * below) == w * unit) by (nonlinear_arith)
        requires
            2 * below == pow2(s) * unit,
            w == full * pow2(s),
    ;
    lemma_fundamental_div_mod_converse(
        (2 * (full * below) + pow2(149)) as int,
        unit as int,
        w as int,
        pow2(149) as int,
    );
}

/// Below `2^23`, rounding adds one half in the number's own units and drops
/// the bits after the point.
proof fn lemma_whole_of_narrow(full: nat, k: nat)
    requires
        1 <= k <= 149,
    ensures
        ((2 * (full * pow2((149 - k) as nat)) + pow2(149)) as int) / (pow2(150) as int) == ((full
            + pow2((k - 1) as nat)) as int) / (pow2(k) as int),
{
    let c = pow2((150 - k) as nat);
    let below = pow2((149 - k) as nat);
    let half = pow2((k - 1) as nat);
    lemma_pow2_unfold((150 - k) as nat);
    assert(c == 2 * below);
    lemma_pow2_adds((150 - k) as nat, (k - 1) as nat);
    assert(pow2(149) == c * half);
    lemma_pow2_adds((150 - k) as nat, k);
    assert(pow2(150) == c * pow2(k));
    lemma_pow2_pos((150 - k) as nat);
    lemma_pow2_pos(k);
    assert(2 * (full * below) + c * half == c * (full + half)) by (nonlinear_arith)
        requires
            c == 2 * below,
    ;
    lemma_div_multiples_vanish_quotient(c as int, (full + half) as int, pow2(k) as int);
}

impl Scalar {
    /// Rounds to the nearest whole number, halfway cases away from zero, and
    /// keeps the result within 32 signed bits: a value beyond them gives the
    /// nearest bound, and what is not a number gives zero.
    pub fn round_to_i32(self) -> (r: i32)
        ensures
            r == self.rounded(),
    {
        let body: u32 = self.bits % SIGN_BIT;
        if body > INFINITY_BITS {
            return 0;
        }
        let negative = self.bits >= SIGN_BIT;
        let e: u32 = body / FRACTION_SPAN;
        let full: u64 = (FRACTION_SPAN + body % FRACTION_SPAN) as u64;
        if e < 126 {
            proof {
                lemma_small_rounds_to_zero(self);
            }
            return 0;
        }
        if e >= 158 {
            proof {
                lemma_large_rounds_out_of_range(self);
            }
            return if negative {
                i32::MIN
            } else {
                i32::MAX
            };
        }
        let whole: u64 = if e >= 150 {
            let s: u32 = e - 150;
            proof {
                lemma2_to64();
                if s < 7 {
                    lemma_pow2_strictly_increases(s as nat, 7);
                }
                assert(full * pow2(s as nat) < 0x8000_0000) by (nonlinear_arith)
                    requires
                        full < 0x100_0000,
                        pow2(s as nat) <= 0x80,
                ;
                lemma_u64_shl_is_mul(full, s as u64);
                lemma_whole_of_wide(full as nat, s as nat);
            }
            full << s
        } else {
            let k: u32 = 150 - e;
            proof {
                lemma2_to64();
                if k < 24 {
                    lemma_pow2_strictly_increases((k - 1) as nat, 23);
                }
                lemma_pow2_pos((k - 1) as nat);
                lemma_pow2_unfold(k as nat);
                lemma_u64_shl_is_mul(1, (k - 1) as u64);
            }
            let half: u64 = 1u64 << (k - 1);
            proof {
                lemma_u64_shr_is_div((full + half) as u64, k as u64);
                lemma_whole_of_narrow(full as nat, k as nat);
                assert(((full + half) as int) / (pow2(k as nat) as int) <= full + half)
                    by (nonlinear_arith)
                    requires
                        pow2(k as nat) >= 1,
                        full + half >= 0,
                ;
            }
            (full + half) >> k
        };
        if negative {
            -(whole as i64) as i32
        } else {
            whole as i32
        }
    }
}

/// The distance between neighbouring single-precision numbers around a whole
/// number of magnitude `a`: one below `2^24`, and twice as much with every
/// further bit.
pub open spec fn spacing(a: nat) -> nat
    decreases a,
{
    if a < 0x100_0000 {
        1
    } else {
        2 * spacing(a / 2)
    }
}

/// The multiple of `unit` nearest to `a`; halfway between two multiples, the
/// even one.
pub open spec fn nearest_multiple(a: nat, unit: nat) -> nat {
    let q = a / unit;
    let r = a % unit;
    if 2 * r < unit || (2 * r == unit && q % 2 == 0) {
        q * unit
    } else {
        (q + 1) * unit
    }
}

/// The value, in units of `2^-149`, of the single-precision number nearest to
/// the whole number `n`.
pub open spec fn nearest_scaled(n: int) -> int {
    let a = (if n < 0 {
        -n
    } else {
        n
    }) as nat;
    let m = (nearest_multiple(a, spacing(a)) * pow2(149)) as int;
    if n < 0 {
        -m
    } else {
        m
    }
}

/// Whether `r` is the single-precision number nearest to the whole number
/// `n`: its sign is that of `n`, so that zero comes out positive.
pub open spec fn is_nearest(r: Scalar, n: int) -> bool {
    &&& r.finite()
    &&& r.negative() == (n < 0)
    &&& r.scaled() == nearest_scaled(n)
}

impl Scalar {
    /// The single-precision number nearest to the whole number `n`.
    pub open spec fn of_whole(n: int) -> Scalar {
        choose|r: Scalar| is_nearest(r, n)
    }
}

/// Up to `2^24` in magnitude every whole number has its nearest number: the
/// number that it is itself.
pub proof fn lemma_nearest_exists(n: int)
    requires
        -0x100_0000 <= n <= 0x100_0000,
    ensures
        is_nearest(Scalar::of_whole(n), n),
{
    let a = (if n < 0 {
        -n
    } else {
        n
    }) as nat;
    let sign: nat = if n < 0 {
        0x8000_0000
    } else {
        0
    };
    if a == 0 {
        let r = Scalar { bits: 0 };
        assert(spacing(0) == 1);
        assert(0nat / 1 == 0 && 0nat % 1 == 0);
        assert(nearest_multiple(0, 1) == 0);
        assert(r.magnitude() == 0);
        assert(0 * pow2(149) == 0);
        assert(is_nearest(r, n));
    } else {
        lemma2_to64();
        assert(a * pow2(0) == a) by (nonlinear_arith)
            requires
                pow2(0) == 1,
        ;
        lemma_normal_form(a, 0);
        let t = choose|t: nat| t <= 23 && 0x80_0000 <= #[trigger] (a * pow2(t)) <= 0x100_0000;
        let m = a * pow2(t);
        let r = Scalar { bits: (sign + (149 - t) * 0x80_0000 + m) as u32 };
        lemma_magnitude_of_fields(r, (150 - t) as nat, m);
        lemma_pow2_adds(t, (149 - t) as nat);
        assert(m * pow2((149 - t) as nat) == a * pow2(149)) by (nonlinear_arith)
            requires
                m == a * pow2(t),
                pow2(149) == pow2(t) * pow2((149 - t) as nat),
        ;
        if a < 0x100_0000 {
            assert(spacing(a) == 1);
            assert(a / 1 == a && a % 1 == 0);
            assert(nearest_multiple(a, 1) == a);
        } else {
            assert(spacing(a) == 2 * spacing(a / 2));
            assert(spacing(a / 2) == 1);
            assert(nearest_multiple(a, 2) == a);
        }
        assert(is_nearest(r, n));
    }
}

/// A whole number from one to `2^24`, doubled often enough, comes to lie
/// between `2^23` and `2^24`.
proof fn lemma_normal_form(a: nat, t: nat)
    requires
        1 <= a * pow2(t) <= 0x100_0000,
        t <= 23,
        a * pow2(t) < 0x80_0000 ==> t < 23,
    ensures
        exists|u: nat| u <= 23 && 0x80_0000 <= #[trigger] (a * pow2(u)) <= 0x100_0000,
    decreases 0x100_0000 - a * pow2(t),
{
    let m = a * pow2(t);
    if m >= 0x80_0000 {
    } else {
        lemma_pow2_unfold(t + 1);
        lemma2_to64();
        let next = pow2(t + 1);
        assert(a * next == 2 * m) by (nonlinear_arith)
            requires
                m == a * pow2(t),
                next == 2 * pow2(t),
        ;
        if t + 1 >= 23 {
            if t + 1 > 23 {
                lemma_pow2_strictly_increases(23, t + 1);
            }
            assert(a * next >= 0x80_0000) by (nonlinear_arith)
                requires
                    a >= 1,
                    next >= 0x80_0000,
            ;
        }
        lemma_normal_form(a, t + 1);
    }
}

/// Only one number is the nearest to a whole number.
pub proof fn lemma_nearest_unique(a: Scalar, b: Scalar, n: int)
    requires
        is_nearest(a, n),
        is_nearest(b, n),
    ensures
        a == b,
{
    lemma_scaled_equal(a, b);
}

/// A pattern with exponent field `e` and significand `m`, the leading bit
/// counted in, has magnitude `m * 2^(e - 1)`; a significand of `2^24` carries
/// into the exponent.
proof fn lemma_magnitude_of_fields(a: Scalar, e: nat, m: nat)
    requires
        1 <= e <= 253,
        0x80_0000 <= m <= 0x100_0000,
        a.body() == (e - 1) * 0x80_0000 + m,
    ensures
        a.magnitude() == m * pow2((e - 1) as nat),
        a.finite(),
{
    if m == 0x100_0000 {
        assert(a.exponent() == e + 1);
        assert(a.fraction() == 0);
        lemma_pow2_unfold(e);
        assert(0x80_0000 * pow2(e) == m * pow2((e - 1) as nat)) by (nonlinear_arith)
            requires
                pow2(e) == 2 * pow2((e - 1) as nat),
                m == 0x100_0000,
        ;
    } else {
        assert(a.exponent() == e);
        assert(a.fraction() == m - 0x80_0000);
    }
}

impl Scalar {
    /// The single-precision number nearest to the whole number `n`; where
    /// `n` lies halfway between two of them, the one whose last bit is zero.
    pub fn from_i32(n: i32) -> (r: Scalar)
        ensures
            is_nearest(r, n as int),
            r == Scalar::of_whole(n as int),
    {
        let a: u32 = if n < 0 {
            (-(n as i64)) as u32
        } else {
            n as u32
        };
        if a == 0 {
            let r = Scalar { bits: 0 };
            proof {
                assert(spacing(0) == 1);
                assert(nearest_multiple(0, 1) == 0) by {
                    assert(0nat / 1 == 0 && 0nat % 1 == 0);
                }
                assert(r.magnitude() == 0);
                assert(0 * pow2(149) == 0);
                assert(is_nearest(r, n as int));
            lemma_nearest_unique(r, Scalar::of_whole(n as int), n as int);
            }
            return r;
        }
        let sign: u32 = if n < 0 {
            SIGN_BIT
        } else {
            0
        };
        if a < 0x80_0000 {
            let mut m: u32 = a;
            let mut t: u32 = 0;
            proof {
                lemma2_to64();
            }
            while m < 0x80_0000
                invariant
                    0 < m < 0x100_0000,
                    m == a * pow2(t as nat),
                    t <= 23,
                    m < 0x80_0000 ==> t < 23,
                decreases 0x100_0000 - m,
            {
                proof {
                    lemma_pow2_unfold((t + 1) as nat);
                    lemma2_to64();
                    if t + 1 < 23 {
                        lemma_pow2_strictly_increases((t + 1) as nat, 23);
                    }
                    let next = pow2((t + 1) as nat);
                    assert(2 * m == a * next) by (nonlinear_arith)
                        requires
                            m == a * pow2(t as nat),
                            next == 2 * pow2(t as nat),
                    ;
                    if t + 1 >= 23 {
                        assert(a * next >= 0x80_0000) by (nonlinear_arith)
                            requires
                                a >= 1,
                                next >= 0x80_0000,
                        ;
                    }
                }
                m = m * 2;
                t = t + 1;
            }
            let r = Scalar { bits: sign + (149 - t) * FRACTION_SPAN + m };
            proof {
                lemma_magnitude_of_fields(r, (150 - t) as nat, m as nat);
                lemma_pow2_adds(t as nat, (149 - t) as nat);
                assert(m * pow2((149 - t) as nat) == a * pow2(149)) by (nonlinear_arith)
                    requires
                        m == a * pow2(t as nat),
                        pow2(149) == pow2(t as nat) * pow2((149 - t) as nat),
                ;
                assert(spacing(a as nat) == 1);
                assert(nearest_multiple(a as nat, 1) == a);
                assert(is_nearest(r, n as int));
            lemma_nearest_unique(r, Scalar::of_whole(n as int), n as int);
            }
            return r;
        }
        let mut q: u32 = a;
        let mut unit: u32 = 1;
        let mut shift: u32 = 0;
        proof {
            lemma2_to64();
        }
        while q >= 0x100_0000
            invariant
                unit == pow2(shift as nat),
                1 <= unit <= 0x100,
                q >= 0x100_0000 ==> unit < 0x100,
                shift <= 8,
                q == a / unit,
                q >= 0x80_0000,
                spacing(a as nat) == unit * spacing(q as nat),
            decreases q,
        {
            proof {
                lemma_pow2_unfold((shift + 1) as nat);
                lemma2_to64();
                if shift + 1 < 8 {
                    lemma_pow2_strictly_increases((shift + 1) as nat, 8);
                }
                if shift >= 8 {
                    lemma_pow2_strictly_increases(7, shift as nat);
                }
                lemma_div_denominator(a as int, unit as int, 2);
                assert(unit * (2 * spacing((q / 2) as nat)) == (unit * 2) * spacing((q / 2) as nat))
                    by (nonlinear_arith);
            }
            q = q / 2;
            unit = unit * 2;
            shift = shift + 1;
        }
        let rest: u32 = a % unit;
        let up: bool = 2 * rest > unit || (2 * rest == unit && q % 2 == 1);
        let m: u32 = if up {
            q + 1
        } else {
            q
        };
        let r = Scalar { bits: sign + (149 + shift) * FRACTION_SPAN + m };
        proof {
            let last = spacing(q as nat);
            assert(last == 1);
            assert(unit * last == unit) by (nonlinear_arith)
                requires
                    last == 1,
            ;
            assert(nearest_multiple(a as nat, unit as nat) == m * unit);
            lemma_magnitude_of_fields(r, (150 + shift) as nat, m as nat);
            lemma_pow2_adds(shift as nat, 149);
            assert(m * pow2((149 + shift) as nat) == (m * unit) * pow2(149)) by (nonlinear_arith)
                requires
                    unit == pow2(shift as nat),
                    pow2((149 + shift) as nat) == pow2(shift as nat) * pow2(149),
            ;
            assert(is_nearest(r, n as int));
            lemma_nearest_unique(r, Scalar::of_whole(n as int), n as int);
        }
        r
    }
}

/// Up to `2^24` in magnitude the number nearest to a whole number is that
/// whole number exactly.
pub proof fn lemma_whole_is_exact(n: int)
    requires
        -0x100_0000 <= n <= 0x100_0000,
    ensures
        Scalar::of_whole(n).scaled() == n * pow2(149),
{
    lemma_nearest_exists(n);
    let a = (if n < 0 {
        -n
    } else {
        n
    }) as nat;
    if a < 0x100_0000 {
        assert(spacing(a) == 1);
        assert(a / 1 == a && a % 1 == 0);
        assert(nearest_multiple(a, 1) == a);
    } else {
        assert(spacing(a) == 2 * spacing(a / 2));
        assert(spacing(a / 2) == 1);
        assert(nearest_multiple(a, 2) == a);
    }
    assert((-(a as int)) * pow2(149) == -(a * pow2(149))) by (nonlinear_arith);
}

/// Up to `2^24` in magnitude a whole number is a single-precision number
/// itself: rounding the number nearest to it gives it back.
pub proof fn lemma_whole_round_trip(n: int, r: Scalar)
    requires
        -0x100_0000 <= n <= 0x100_0000,
        is_nearest(r, n),
    ensures
        r.rounded() == n,
{
    let a = (if n < 0 {
        -n
    } else {
        n
    }) as nat;
    if a < 0x100_0000 {
        assert(spacing(a) == 1);
        assert(a / 1 == a && a % 1 == 0);
        assert(nearest_multiple(a, 1) == a);
    } else {
        assert(spacing(a) == 2 * spacing(a / 2));
        assert(spacing(a / 2) == 1);
        assert(nearest_multiple(a, 2) == a);
    }
    assert(r.magnitude() == a * pow2(149));
    lemma_pow2_unfold(150);
    lemma_pow2_pos(149);
    assert(2 * (a * pow2(149)) + pow2(149) == a * pow2(150) + pow2(149)) by (nonlinear_arith)
        requires
            pow2(150) == 2 * pow2(149),
    ;
    lemma_fundamental_div_mod_converse(
        (2 * r.magnitude() + pow2(149)) as int,
        pow2(150) as int,
        a as int,
        pow2(149) as int,
    );
}

} // verus!
