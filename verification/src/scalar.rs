//! Log probabilities and probabilities as IEEE 754 bit patterns.

use vstd::arithmetic::power2;
use vstd::prelude::*;

verus! {

/// The bits of negative infinity.
pub const NEG_INFINITY_BITS: u64 = 0xFFF0_0000_0000_0000;

/// The bits of positive infinity; a greater magnitude is not a number.
pub const INFINITY_BITS: u64 = 0x7FF0_0000_0000_0000;

/// The sign bit.
pub const SIGN_BIT: u64 = 0x8000_0000_0000_0000;

/// The bits of one.
pub const ONE_BITS: u64 = 0x3FF0_0000_0000_0000;

/// The least significand of a normal double, two to the power of 52.
pub const LEAST_SIGNIFICAND: u64 = 0x10_0000_0000_0000;

/// The biased exponent of the doubles whose significand counts whole ones.
pub const WHOLE_EXPONENT: u64 = 1075;

/// An IEEE 754 double, held as its bit pattern.
///
/// The arithmetic on such numbers is the caller's, but for one over a count;
/// what is decided by their order is decided here, on the bits.
#[derive(Debug, Clone, Copy, PartialEq, Eq, Structural, Hash)]
pub struct Scalar {
    pub bits: u64,
}

impl Scalar {
    /// The bits without the sign.
    pub open spec fn magnitude(self) -> int {
        if self.bits >= SIGN_BIT {
            self.bits - SIGN_BIT
        } else {
            self.bits as int
        }
    }

    /// Whether the bits stand for no number.
    pub open spec fn is_nan(self) -> bool {
        self.magnitude() > INFINITY_BITS
    }

    /// An integer that orders the numbers as their values do; both zeros have
    /// the same rank.
    pub open spec fn rank(self) -> int {
        if self.bits >= SIGN_BIT {
            -self.magnitude()
        } else {
            self.magnitude()
        }
    }

    /// `self > other` on the values. Nothing exceeds, or is exceeded by, what
    /// is not a number.
    pub open spec fn above(self, other: Scalar) -> bool {
        !self.is_nan() && !other.is_nan() && self.rank() > other.rank()
    }

    /// Negative infinity.
    pub open spec fn spec_neg_infinity() -> Scalar {
        Scalar { bits: NEG_INFINITY_BITS }
    }

    /// A number greater than negative infinity.
    pub open spec fn valid(self) -> bool {
        self.above(Scalar::spec_neg_infinity())
    }

    /// Zero.
    pub open spec fn zero() -> Scalar {
        Scalar { bits: 0 }
    }

    /// One.
    pub open spec fn one() -> Scalar {
        Scalar { bits: ONE_BITS }
    }

    /// Whether the value is a number between zero and one.
    pub open spec fn share(self) -> bool {
        !self.is_nan() && Scalar::zero().rank() <= self.rank() <= Scalar::one().rank()
    }

    /// Whether the bits are those of `significand` over two to the power of
    /// `scale`. The carry of a significand of two to the power of 53 goes to
    /// the exponent.
    pub open spec fn is_scaled(self, significand: nat, scale: nat) -> bool {
        &&& LEAST_SIGNIFICAND <= significand <= 2 * LEAST_SIGNIFICAND
        &&& scale < WHOLE_EXPONENT
        &&& self.bits == (WHOLE_EXPONENT - scale) * LEAST_SIGNIFICAND + (significand
            - LEAST_SIGNIFICAND)
    }

    /// Whether the value is the double next to one over `n`: no multiple of
    /// the unit in the last place of one over `n` is nearer, and of two that
    /// are as near it is the one with an even significand.
    pub open spec fn is_reciprocal(self, n: nat) -> bool {
        exists|significand: nat, scale: nat| #[trigger]
            self.is_scaled(significand, scale) && is_nearest(significand, scale, n)
    }

    /// The whole number `n`, where it is below two to the power of 53: the
    /// highest bit gives the exponent, and the bits below it come first in the
    /// fraction.
    pub open spec fn whole(n: nat) -> Scalar {
        if n == 0 {
            Scalar::zero()
        } else {
            let k = top_bit(n);
            Scalar {
                bits: ((1023 + k) * LEAST_SIGNIFICAND + (n - power2::pow2(k)) * power2::pow2(
                    (52 - k) as nat,
                )) as u64,
            }
        }
    }

    /// Whether the value is a number between zero and one.
    pub fn is_share(self) -> (r: bool)
        ensures
            r == self.share(),
    {
        let (negative, size) = self.split();
        if size > INFINITY_BITS {
            false
        } else if negative {
            size == 0
        } else {
            size <= ONE_BITS
        }
    }

    /// The double next to one over `n`.
    pub fn reciprocal(n: u64) -> (r: Scalar)
        requires
            n > 0,
        ensures
            r.is_reciprocal(n as nat),
            r.share(),
    {
        let wide: u128 = n as u128;
        let limit: u128 = wide * LEAST_SIGNIFICAND as u128;
        let mut power: u128 = LEAST_SIGNIFICAND as u128;
        let mut scale: u64 = 52;
        proof {
            power2::lemma2_to64_rest();
            assert(n * LEAST_SIGNIFICAND >= LEAST_SIGNIFICAND) by (nonlinear_arith)
                requires
                    n > 0,
            ;
        }
        while power < limit
            invariant
                wide == n,
                n > 0,
                limit == n * LEAST_SIGNIFICAND,
                52 <= scale <= 116,
                power == power2::pow2(scale as nat),
                power < 2 * limit,
            decreases 116 - scale,
        {
            proof {
                lemma_scale_bound(scale as nat);
                power2::lemma_pow2_unfold((scale + 1) as nat);
            }
            power = power * 2;
            scale = scale + 1;
        }
        let whole: u128 = power / wide;
        let rest: u128 = power % wide;
        proof {
            lemma_quotient(power as int, n as int);
        }
        let significand: u128 = if 2 * rest > wide || (2 * rest == wide && whole % 2 == 1) {
            whole + 1
        } else {
            whole
        };
        let above: u64 = (significand - LEAST_SIGNIFICAND as u128) as u64;
        let r = Scalar { bits: (WHOLE_EXPONENT - scale) * LEAST_SIGNIFICAND + above };
        proof {
            assert((whole + 1) * n == whole * n + n) by (nonlinear_arith);
            assert(r.is_scaled(significand as nat, scale as nat));
            assert(is_nearest(significand as nat, scale as nat, n as nat));
        }
        r
    }

    /// Negative infinity, the log probability of what cannot occur.
    pub fn neg_infinity() -> (r: Scalar)
        ensures
            r == Scalar::spec_neg_infinity(),
    {
        Scalar { bits: NEG_INFINITY_BITS }
    }

    fn split(self) -> (r: (bool, u64))
        ensures
            r.0 == (self.bits >= SIGN_BIT),
            r.1 == self.magnitude(),
    {
        if self.bits >= SIGN_BIT {
            (true, self.bits - SIGN_BIT)
        } else {
            (false, self.bits)
        }
    }

    /// Whether the value of `self` is greater than that of `other`.
    pub fn exceeds(self, other: Scalar) -> (r: bool)
        ensures
            r == self.above(other),
    {
        let (neg_a, a) = self.split();
        let (neg_b, b) = other.split();
        if a > INFINITY_BITS || b > INFINITY_BITS {
            false
        } else if neg_a {
            neg_b && a < b
        } else if neg_b {
            a > 0 || b > 0
        } else {
            a > b
        }
    }

    /// Whether the value is a number greater than negative infinity.
    pub fn is_valid(self) -> (r: bool)
        ensures
            r == self.valid(),
    {
        self.exceeds(Scalar::neg_infinity())
    }
}

// ---------------------------------------------------------------------------
// Laws of the order
// ---------------------------------------------------------------------------

/// Which bits stand for no number, for a number above negative infinity, and
/// for a number between zero and one.
pub proof fn law_kinds_of_scalars(x: Scalar)
    ensures
        x.is_nan() <==> 0x7FF0_0000_0000_0000 < x.bits < 0x8000_0000_0000_0000 || x.bits
            > 0xFFF0_0000_0000_0000,
        x.valid() <==> x.bits <= 0x7FF0_0000_0000_0000 || 0x8000_0000_0000_0000 <= x.bits
            < 0xFFF0_0000_0000_0000,
        x.share() <==> x.bits <= 0x3FF0_0000_0000_0000 || x.bits == 0x8000_0000_0000_0000,
        x.valid() <==> !x.is_nan() && x != Scalar::spec_neg_infinity(),
        Scalar::spec_neg_infinity().bits == 0xFFF0_0000_0000_0000,
        Scalar::zero().bits == 0,
        Scalar::one().bits == 0x3FF0_0000_0000_0000,
{
}

/// Numbers are ordered by sign and size: among those without a sign the greater
/// bits are above, among those with a sign the smaller bits are, and a number
/// without a sign is above every number with one, but for the two zeros. What
/// is not a number is above nothing and below nothing.
pub proof fn law_order_of_scalars(a: Scalar, b: Scalar)
    ensures
        a.is_nan() || b.is_nan() ==> !a.above(b),
        !a.is_nan() && !b.is_nan() ==> (a.above(b) <==> a.rank() > b.rank()),
        !a.is_nan() && !b.is_nan() && a.bits < 0x8000_0000_0000_0000 && b.bits
            < 0x8000_0000_0000_0000 ==> (a.rank() > b.rank() <==> a.bits > b.bits),
        !a.is_nan() && !b.is_nan() && a.bits >= 0x8000_0000_0000_0000 && b.bits
            >= 0x8000_0000_0000_0000 ==> (a.rank() > b.rank() <==> a.bits < b.bits),
        !a.is_nan() && !b.is_nan() && a.bits < 0x8000_0000_0000_0000 && b.bits
            >= 0x8000_0000_0000_0000 ==> a.rank() >= b.rank() && (a.rank() == b.rank() <==> a.bits
            == 0 && b.bits == 0x8000_0000_0000_0000),
{
}

/// One over twice a number is half of one over the number: the same fraction
/// with the exponent one less. One over one is one.
pub proof fn law_reciprocal_halves(a: Scalar, b: Scalar, n: nat)
    requires
        n > 0,
        2 * n < 0x1_0000_0000_0000_0000,
        a.is_reciprocal(n),
        b.is_reciprocal(2 * n),
    ensures
        a.bits - b.bits == 0x10_0000_0000_0000,
        n == 1 ==> a.bits == 0x3FF0_0000_0000_0000,
{
    let (s, i) = choose|s: nat, i: nat| #[trigger] a.is_scaled(s, i) && is_nearest(s, i, n);
    power2::lemma_pow2_unfold(i + 1);
    power2::lemma2_to64_rest();
    lemma_scale_bound_of(i, n);
    let half = Scalar { bits: (a.bits - LEAST_SIGNIFICAND) as u64 };
    assert(s * (2 * n) == 2 * (s * n)) by (nonlinear_arith);
    assert(LEAST_SIGNIFICAND * (2 * n) == 2 * (LEAST_SIGNIFICAND * n));
    assert(half.is_scaled(s, i + 1));
    assert(is_nearest(s, i + 1, 2 * n));
    law_reciprocal_is_unique(half, b, 2 * n);
    if n == 1 {
        assert(s * 1 == s);
        lemma_one_scale(i, 52, LEAST_SIGNIFICAND as int);
        lemma_one_scale(52, i, LEAST_SIGNIFICAND as int);
        assert(i == 52);
        assert(s == LEAST_SIGNIFICAND);
    }
}

/// One over a number is rounded to the nearest double: by the fraction and the
/// exponent that its bits give, it is off by half a unit in the last place at
/// most.
pub proof fn law_reciprocal_is_rounded_to_nearest(r: Scalar, n: nat)
    requires
        n > 0,
        2 * n < 0x1_0000_0000_0000_0000,
        r.is_reciprocal(n),
    ensures
        ({
            let significand = 0x10_0000_0000_0000 + r.bits as int % 0x10_0000_0000_0000;
            let scale = 1075 - r.bits as int / 0x10_0000_0000_0000;
            &&& 0 <= scale
            &&& -n <= 2 * (significand * n - power2::pow2(scale as nat)) <= n
        }),
{
    let (s, i) = choose|s: nat, i: nat| #[trigger] r.is_scaled(s, i) && is_nearest(s, i, n);
    lemma_scale_bound_of(i, n);
    let unit = 0x10_0000_0000_0000int;
    let above = s - unit;
    if s < 2 * unit {
        assert(r.bits as int == (1075 - i) * unit + above);
        assert(r.bits as int / unit == 1075 - i);
        assert(r.bits as int % unit == above);
    } else {
        assert(r.bits as int == (1076 - i) * unit);
        assert(r.bits as int / unit == 1076 - i);
        assert(r.bits as int % unit == 0);
        power2::lemma2_to64();
        if i == 0 {
            assert(LEAST_SIGNIFICAND * n <= 1);
            assert(false);
        }
        power2::lemma_pow2_unfold(i);
        assert(s * n == 2 * (unit * n)) by (nonlinear_arith)
            requires
                s == 2 * unit,
        ;
    }
}

/// The scale of one over a machine number is small.
proof fn lemma_scale_bound_of(i: nat, n: nat)
    requires
        n > 0,
        2 * n < 0x1_0000_0000_0000_0000,
        power2::pow2(i) < 2 * (LEAST_SIGNIFICAND * n),
    ensures
        i < 116,
{
    lemma_scale_bound(i);
}

/// The position of the highest bit of a number.
pub open spec fn top_bit(n: nat) -> nat
    decreases n,
{
    if n < 2 {
        0
    } else {
        1 + top_bit(n / 2)
    }
}

/// A number lies between the power of two of its highest bit and the next one.
proof fn lemma_top_bit(n: nat)
    requires
        n > 0,
    ensures
        power2::pow2(top_bit(n)) <= n < power2::pow2(top_bit(n) + 1),
    decreases n,
{
    power2::lemma_pow2_unfold(top_bit(n) + 1);
    if n < 2 {
        power2::lemma2_to64();
    } else {
        lemma_top_bit(n / 2);
        power2::lemma_pow2_unfold(top_bit(n));
    }
}

/// A whole number below two to the power of 53 has the bits of its exact value:
/// the number times a power of two, over that power.
pub proof fn law_whole_is_exact(n: nat)
    requires
        0 < n < 2 * LEAST_SIGNIFICAND,
    ensures
        top_bit(n) <= 52,
        Scalar::whole(n).is_scaled(
            n * power2::pow2((52 - top_bit(n)) as nat),
            (52 - top_bit(n)) as nat,
        ),
{
    let k = top_bit(n);
    lemma_top_bit(n);
    power2::lemma2_to64_rest();
    if k > 52 {
        if k > 53 {
            power2::lemma_pow2_strictly_increases(53, k);
        }
        assert(false);
    }
    let scale = (52 - k) as nat;
    let low = power2::pow2(k);
    let up = power2::pow2(scale);
    power2::lemma_pow2_adds(k, scale);
    power2::lemma_pow2_unfold(k + 1);
    power2::lemma_pow2_pos(scale);
    assert((n - low) * up == n * up - low * up) by (nonlinear_arith);
    assert(low * up <= n * up < 2 * (low * up)) by (nonlinear_arith)
        requires
            low <= n < 2 * low,
            up > 0,
    ;
}

/// Whether `significand` over two to the power of `scale` is the multiple of
/// one over that power that is next to one over `n`, where the power is the one
/// for which that multiple has the precision of a double.
pub open spec fn is_nearest(significand: nat, scale: nat, n: nat) -> bool {
    let twice_off = 2 * (significand * n - power2::pow2(scale));
    &&& LEAST_SIGNIFICAND * n <= power2::pow2(scale) < 2 * (LEAST_SIGNIFICAND * n)
    &&& -n <= twice_off <= n
    &&& twice_off == n || twice_off == -n ==> significand % 2 == 0
}

/// A power of two below two to the power of 116 has a smaller exponent.
proof fn lemma_scale_bound(scale: nat)
    requires
        power2::pow2(scale) < 0x10_0000_0000_0000 * 0x1_0000_0000_0000_0000,
    ensures
        scale < 116,
{
    power2::lemma2_to64_rest();
    power2::lemma_pow2_adds(52, 64);
    if scale > 116 {
        power2::lemma_pow2_strictly_increases(116, scale);
    }
}

/// The whole part of a power of two over `n`, where the power has the scale of
/// one over `n`.
proof fn lemma_quotient(power: int, n: int)
    requires
        n > 0,
        n * LEAST_SIGNIFICAND <= power < 2 * (n * LEAST_SIGNIFICAND),
    ensures
        power == (power / n) * n + power % n,
        0 <= power % n < n,
        LEAST_SIGNIFICAND <= power / n < 2 * LEAST_SIGNIFICAND,
{
    let q = power / n;
    let r = power % n;
    assert(power == q * n + r && 0 <= r < n) by (nonlinear_arith)
        requires
            n > 0,
            q == power / n,
            r == power % n,
    ;
    assert(LEAST_SIGNIFICAND <= q) by (nonlinear_arith)
        requires
            n > 0,
            power == q * n + r,
            r < n,
            n * LEAST_SIGNIFICAND <= power,
    ;
    assert(q < 2 * LEAST_SIGNIFICAND) by (nonlinear_arith)
        requires
            n > 0,
            power == q * n + r,
            0 <= r,
            power < 2 * (n * LEAST_SIGNIFICAND),
    ;
}

/// One over a number has one nearest double.
pub proof fn law_reciprocal_is_unique(a: Scalar, b: Scalar, n: nat)
    requires
        n > 0,
        a.is_reciprocal(n),
        b.is_reciprocal(n),
    ensures
        a == b,
{
    let (s, i) = choose|s: nat, i: nat| #[trigger] a.is_scaled(s, i) && is_nearest(s, i, n);
    let (t, j) = choose|t: nat, j: nat| #[trigger] b.is_scaled(t, j) && is_nearest(t, j, n);
    lemma_one_scale(i, j, LEAST_SIGNIFICAND * n);
    lemma_one_scale(j, i, LEAST_SIGNIFICAND * n);
    lemma_one_multiple(s as int, t as int, n as int, power2::pow2(i) as int);
    lemma_one_multiple(t as int, s as int, n as int, power2::pow2(i) as int);
}

/// No two powers of two stand between a number and its double.
proof fn lemma_one_scale(i: nat, j: nat, low: int)
    requires
        low <= power2::pow2(i),
        power2::pow2(j) < 2 * low,
    ensures
        i >= j,
{
    if i < j {
        power2::lemma_pow2_unfold(j);
        if i < j - 1 {
            power2::lemma_pow2_strictly_increases(i, (j - 1) as nat);
        }
    }
}

/// No two multiples of a number are the nearest to another, once ties are
/// settled.
proof fn lemma_one_multiple(s: int, t: int, n: int, power: int)
    requires
        n > 0,
        2 * (s * n - power) >= -n,
        2 * (t * n - power) <= n,
        2 * (s * n - power) == -n ==> s % 2 == 0,
        2 * (t * n - power) == n ==> t % 2 == 0,
    ensures
        t <= s,
{
    if t > s {
        assert((t - s) * n == t * n - s * n) by (nonlinear_arith);
        assert(t - s == 1) by (nonlinear_arith)
            requires
                n > 0,
                t > s,
                (t - s) * n <= n,
        ;
        assert((t - s) * n == n);
    }
}

} // verus!
