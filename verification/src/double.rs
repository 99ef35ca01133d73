//! Binary64 numbers held by their bit pattern, with the comparisons that the
//! schema needs done in integer arithmetic.

use vstd::arithmetic::div_mod::{
    lemma_basic_div, lemma_div_is_ordered, lemma_div_multiples_vanish, lemma_div_nonincreasing,
    lemma_fundamental_div_mod,
};
use vstd::arithmetic::mul::{lemma_mul_inequality, lemma_mul_is_commutative};
use vstd::arithmetic::power2::{
    lemma2_to64, lemma2_to64_rest, lemma_pow2_adds, lemma_pow2_pos, lemma_pow2_strictly_increases,
    lemma_pow2_unfold, pow2,
};
use vstd::prelude::*;

verus! {

/// The bit that holds the sign.
pub const SIGN_BIT: u64 = 0x8000_0000_0000_0000;

/// The magnitude of an infinity: every exponent bit set, no fraction bit.
pub const INFINITY_BITS: u64 = 0x7ff0_0000_0000_0000;

/// An IEEE 754 binary64 number, held as the 64 bits that encode it.
#[derive(Clone, Copy, Debug)]
pub struct Double {
    pub bits: u64,
}

/// The weight of the lowest exponent bit: 2 to the 52, the number of
/// fraction bits.
pub const EXPONENT_UNIT: u64 = 0x10_0000_0000_0000;

/// The place of the highest bit that is set in `m`: the `e` with
/// `2^e <= m < 2^(e+1)`, and 0 for 0.
pub open spec fn top_bit(m: nat) -> nat
    decreases m,
{
    if m < 2 {
        0
    } else {
        1 + top_bit(m / 2)
    }
}

/// The encoding, without a sign, of the binary64 number nearest to the
/// natural number `m`; of two that are equally near, the one whose last
/// fraction bit is 0.
///
/// With `e` the place of the highest bit of `m`, a number of at most 53 bits
/// is held exactly: its bits below the highest fill the fraction from the
/// top. A longer one loses its lowest `e - 52` bits and is rounded on what
/// they held; a carry out of the fraction lands in the exponent.
pub open spec fn nearest_magnitude(m: nat) -> int {
    if m == 0 {
        0
    } else {
        let e = top_bit(m);
        if e <= 52 {
            (1023 + e) * pow2(52) + (m * pow2((52 - e) as nat) - pow2(52))
        } else {
            let unit = pow2((e - 52) as nat);
            let kept = m / unit;
            let lost = m % unit;
            let up: int = if 2 * lost > unit || (2 * lost == unit && kept % 2 == 1) {
                1
            } else {
                0
            };
            (1023 + e) * pow2(52) + (kept - pow2(52)) + up
        }
    }
}

/// A number between two neighbouring powers of two has its highest bit at
/// the lower one's exponent.
pub proof fn lemma_top_bit(m: nat, e: nat)
    requires
        pow2(e) <= m < 2 * pow2(e),
    ensures
        top_bit(m) == e,
    decreases e,
{
    lemma2_to64();
    if e == 0 {
    } else {
        lemma_pow2_unfold(e);
        lemma_pow2_pos((e - 1) as nat);
        assert(m >= 2);
        lemma_top_bit(m / 2, (e - 1) as nat);
    }
}

/// The place of the highest bit grows with the number.
pub proof fn lemma_top_bit_bounds(m: nat)
    requires
        m >= 1,
    ensures
        pow2(top_bit(m)) <= m < 2 * pow2(top_bit(m)),
    decreases m,
{
    lemma2_to64();
    if m < 2 {
    } else {
        lemma_top_bit_bounds(m / 2);
        lemma_pow2_unfold(top_bit(m));
    }
}

/// The encoding of the number nearest to `m` lies in the binade of `m`'s
/// highest bit, or is the first of the next.
pub proof fn lemma_nearest_magnitude_binade(m: nat)
    requires
        m >= 1,
    ensures
        (1023 + top_bit(m)) * pow2(52) <= nearest_magnitude(m) <= (1024 + top_bit(m)) * pow2(52),
{
    let e = top_bit(m);
    lemma_top_bit_bounds(m);
    lemma_pow2_pos(52);
    if e <= 52 {
        let k = (52 - e) as nat;
        lemma_pow2_adds(e, k);
        lemma_pow2_pos(k);
        assert(pow2(e) * pow2(k) <= m * pow2(k)) by (nonlinear_arith)
            requires
                pow2(e) <= m,
                pow2(k) > 0,
        ;
        assert(m * pow2(k) < 2 * pow2(e) * pow2(k)) by (nonlinear_arith)
            requires
                m < 2 * pow2(e),
                pow2(k) > 0,
        ;
        assert(2 * pow2(e) * pow2(k) == 2 * (pow2(e) * pow2(k))) by (nonlinear_arith);
        assert((1024 + e) * pow2(52) == (1023 + e) * pow2(52) + pow2(52)) by (nonlinear_arith);
    } else {
        let s = (e - 52) as nat;
        let unit = pow2(s);
        lemma_pow2_adds(52, s);
        lemma_pow2_pos(s);
        lemma_fundamental_div_mod(m as int, unit as int);
        let kept = m / unit;
        assert(kept >= pow2(52)) by {
            lemma_div_is_ordered((pow2(52) * unit) as int, m as int, unit as int);
            lemma_mul_is_commutative(pow2(52) as int, unit as int);
            lemma_div_multiples_vanish(pow2(52) as int, unit as int);
        }
        assert(kept < 2 * pow2(52)) by {
            if kept >= 2 * pow2(52) {
                assert(unit * kept >= unit * (2 * pow2(52))) by (nonlinear_arith)
                    requires
                        kept >= 2 * pow2(52),
                        unit >= 0,
                ;
                assert(unit * (2 * pow2(52)) == 2 * (pow2(52) * unit)) by (nonlinear_arith);
                assert(false);
            }
        }
        assert((1024 + e) * pow2(52) == (1023 + e) * pow2(52) + pow2(52)) by (nonlinear_arith);
    }
}

/// The number nearest to a 64-bit integer is a finite number.
pub proof fn lemma_of_int_is_number(v: int)
    requires
        -0x8000_0000_0000_0000 <= v < 0x1_0000_0000_0000_0000,
    ensures
        Double::of_int(v).is_finite(),
        !Double::of_int(v).is_nan(),
        Double::of_int(v).negative() == (v < 0),
        v < 0 ==> Double::of_int(v).magnitude() == nearest_magnitude((-v) as nat),
        v >= 0 ==> Double::of_int(v).magnitude() == nearest_magnitude(v as nat),
{
    lemma2_to64();
    lemma2_to64_rest();
    let m: nat = if v < 0 { (-v) as nat } else { v as nat };
    if m >= 1 {
        lemma_nearest_magnitude_binade(m);
        lemma_top_bit_bounds(m);
        let e = top_bit(m);
        if e >= 64 {
            if e > 64 {
                lemma_pow2_strictly_increases(64, e);
            }
            assert(false);
        }
        assert((1024 + e) * pow2(52) <= 1087 * pow2(52)) by (nonlinear_arith)
            requires
                e <= 63,
                pow2(52) > 0,
        ;
        assert((1023 + e) * pow2(52) >= 0) by (nonlinear_arith)
            requires
                e >= 0,
                pow2(52) > 0,
        ;
    }
}

/// A greater natural number has no lesser nearest number.
pub proof fn lemma_nearest_magnitude_monotone(m1: nat, m2: nat)
    requires
        m1 <= m2,
    ensures
        nearest_magnitude(m1) <= nearest_magnitude(m2),
{
    lemma_pow2_pos(52);
    if m1 == 0 {
        if m2 >= 1 {
            lemma_nearest_magnitude_binade(m2);
            assert((1023 + top_bit(m2)) * pow2(52) >= 0) by (nonlinear_arith)
                requires
                    pow2(52) > 0,
            ;
        }
    } else {
        let e1 = top_bit(m1);
        let e2 = top_bit(m2);
        lemma_top_bit_bounds(m1);
        lemma_top_bit_bounds(m2);
        lemma_nearest_magnitude_binade(m1);
        lemma_nearest_magnitude_binade(m2);
        if e1 < e2 {
            assert((1024 + e1) * pow2(52) <= (1023 + e2) * pow2(52)) by (nonlinear_arith)
                requires
                    e1 + 1 <= e2,
                    pow2(52) > 0,
            ;
        } else if e1 > e2 {
            lemma_pow2_unfold(e2 + 1);
            if e2 + 1 < e1 {
                lemma_pow2_strictly_increases(e2 + 1, e1);
            }
            assert(false);
        } else {
            let e = e1;
            if e <= 52 {
                let k = (52 - e) as nat;
                lemma_pow2_pos(k);
                assert(m1 * pow2(k) <= m2 * pow2(k)) by (nonlinear_arith)
                    requires
                        m1 <= m2,
                        pow2(k) > 0,
                ;
            } else {
                let unit = pow2((e - 52) as nat);
                lemma_pow2_pos((e - 52) as nat);
                lemma_fundamental_div_mod(m1 as int, unit as int);
                lemma_fundamental_div_mod(m2 as int, unit as int);
                lemma_div_is_ordered(m1 as int, m2 as int, unit as int);
                let kept1 = m1 / unit;
                let kept2 = m2 / unit;
                if kept1 == kept2 {
                    assert(unit * kept1 == unit * kept2);
                    assert(m1 % unit <= m2 % unit);
                }
            }
        }
    }
}

impl Double {
    /// The number nearest to an integer, ties going to the even fraction.
    pub open spec fn of_int(v: int) -> Double {
        if v < 0 {
            Double { bits: (SIGN_BIT + nearest_magnitude((-v) as nat)) as u64 }
        } else {
            Double { bits: nearest_magnitude(v as nat) as u64 }
        }
    }

    /// Whether the sign bit is set.
    pub open spec fn negative(self) -> bool {
        self.bits >= SIGN_BIT
    }

    /// The encoding without its sign bit. Among numbers of one sign a larger
    /// magnitude encodes a larger absolute value.
    pub open spec fn magnitude(self) -> int {
        if self.bits >= SIGN_BIT {
            self.bits - SIGN_BIT
        } else {
            self.bits as int
        }
    }

    /// Whether the encoding is not a number.
    pub open spec fn is_nan(self) -> bool {
        self.magnitude() > INFINITY_BITS
    }

    /// Whether the encoding is a number other than an infinity.
    pub open spec fn is_finite(self) -> bool {
        self.magnitude() < INFINITY_BITS
    }

    /// The place of a number in the numeric order: `a` is below `b` exactly
    /// when `a.rank() < b.rank()`. The two zeros share rank 0.
    pub open spec fn rank(self) -> int {
        if self.negative() {
            -self.magnitude()
        } else {
            self.magnitude()
        }
    }

    /// The lesser of two numbers. A NaN gives way to the other argument, and
    /// of the two zeros the negative one is the lesser.
    pub open spec fn spec_min(self, other: Double) -> Double {
        if self.is_nan() {
            other
        } else if other.is_nan() {
            self
        } else if self.rank() < other.rank() {
            self
        } else if other.rank() < self.rank() {
            other
        } else if self.negative() {
            self
        } else {
            other
        }
    }

    /// The greater of two numbers. A NaN gives way to the other argument, and
    /// of the two zeros the positive one is the greater.
    pub open spec fn spec_max(self, other: Double) -> Double {
        if self.is_nan() {
            other
        } else if other.is_nan() {
            self
        } else if self.rank() > other.rank() {
            self
        } else if other.rank() > self.rank() {
            other
        } else if self.negative() {
            other
        } else {
            self
        }
    }

    /// The exponent field: the eleven bits after the sign.
    pub open spec fn exponent_field(self) -> int {
        self.magnitude() / (EXPONENT_UNIT as int)
    }

    /// The significand as an integer: the fraction bits, with the implied
    /// leading bit where the exponent field is not 0. The magnitude of a
    /// finite number is `significand * 2^(max(exponent_field, 1) - 1075)`.
    pub open spec fn significand(self) -> int {
        let fraction = self.magnitude() % (EXPONENT_UNIT as int);
        if self.exponent_field() == 0 {
            fraction
        } else {
            EXPONENT_UNIT + fraction
        }
    }

    /// The exponent field, but 1 where it is 0: numbers of either exponent
    /// field 0 or 1 have their unit in the last place at `2^-1074`.
    pub open spec fn scale(self) -> int {
        if self.exponent_field() == 0 {
            1
        } else {
            self.exponent_field()
        }
    }

    /// The absolute value of a finite number, in units of `2^-1074`.
    pub open spec fn scaled_magnitude(self) -> int {
        self.significand() * pow2((self.scale() - 1) as nat)
    }

    /// The value of a finite number, in units of `2^-1074`.
    pub open spec fn scaled(self) -> int {
        if self.negative() {
            -self.scaled_magnitude()
        } else {
            self.scaled_magnitude()
        }
    }

    /// The absolute value of a finite number without its fraction.
    pub open spec fn whole_magnitude(self) -> int {
        if self.scale() >= 1075 {
            self.significand() * pow2((self.scale() - 1075) as nat)
        } else {
            self.significand() / (pow2((1075 - self.scale()) as nat) as int)
        }
    }

    /// The number as a signed 64-bit integer, as a cast makes it: without
    /// its fraction, the nearest bound where it is out of range, and 0 for a
    /// NaN.
    pub open spec fn spec_to_i64(self) -> i64 {
        if self.is_nan() {
            0
        } else if self.negative() {
            if !self.is_finite() || self.whole_magnitude() >= 0x8000_0000_0000_0000 {
                i64::MIN
            } else {
                (-self.whole_magnitude()) as i64
            }
        } else {
            if !self.is_finite() || self.whole_magnitude() > i64::MAX {
                i64::MAX
            } else {
                self.whole_magnitude() as i64
            }
        }
    }

    /// Whether the difference `max - min` of two finite numbers, computed in
    /// binary64, is a finite number above 0: the exact difference is above
    /// 0 and below `2^1024 - 2^970`, from where on a difference rounds to
    /// infinity.
    pub open spec fn spans(min: Double, max: Double) -> bool {
        0 < max.scaled() - min.scaled() < 0x3f_ffff_ffff_ffff * pow2(2044)
    }

    /// Whether the binary64 number nearest to the quotient `part / whole` of
    /// two positive integers is at most `self`, which is how the quotient
    /// of two integers that binary64 holds exactly, computed in binary64,
    /// compares with `self`.
    ///
    /// The nearest number is at most `self` exactly when the quotient lies
    /// below the midpoint between `self` and the next number above it, or on
    /// that midpoint while the significand of `self` is even. With `m` the
    /// significand and `e` the exponent field that midpoint is
    /// `(2m + 1) * 2^(max(e, 1) - 1076)`. No positive quotient rounds to a
    /// negative number, to zero or to NaN.
    pub open spec fn bounds_quotient(self, part: nat, whole: nat) -> bool {
        if self.is_nan() || self.negative() {
            false
        } else if !self.is_finite() {
            true
        } else {
            let e = if self.exponent_field() == 0 {
                1
            } else {
                self.exponent_field()
            };
            let twice = 2 * self.significand() + 1;
            let left: int = if e <= 1076 {
                (part * pow2((1076 - e) as nat)) as int
            } else {
                part as int
            };
            let right: int = if e <= 1076 {
                whole * twice
            } else {
                whole * twice * pow2((e - 1076) as nat)
            };
            if self.significand() % 2 == 0 {
                left <= right
            } else {
                left < right
            }
        }
    }

    /// Whether `self` is numerically below `other`; false when either is NaN.
    pub open spec fn spec_lt(self, other: Double) -> bool {
        !self.is_nan() && !other.is_nan() && self.rank() < other.rank()
    }

    /// Whether `self` is numerically equal to `other`; false when either is
    /// NaN, true of the two zeros.
    pub open spec fn spec_same(self, other: Double) -> bool {
        !self.is_nan() && !other.is_nan() && self.rank() == other.rank()
    }

    /// The number that the 64 bits encode.
    pub fn from_bits(bits: u64) -> (r: Double)
        ensures
            r.bits == bits,
    {
        Double { bits }
    }

    /// The 64 bits that encode the number.
    pub fn to_bits(self) -> (r: u64)
        ensures
            r == self.bits,
    {
        self.bits
    }

    /// Whether the sign bit is set.
    pub fn is_negative(self) -> (r: bool)
        ensures
            r == self.negative(),
    {
        self.bits >= SIGN_BIT
    }

    /// The encoding without its sign bit.
    pub fn abs_bits(self) -> (r: u64)
        ensures
            r == self.magnitude(),
            r < SIGN_BIT,
    {
        if self.bits >= SIGN_BIT {
            self.bits - SIGN_BIT
        } else {
            self.bits
        }
    }

    /// Whether the encoding is not a number.
    pub fn nan(self) -> (r: bool)
        ensures
            r == self.is_nan(),
    {
        self.abs_bits() > INFINITY_BITS
    }

    /// Whether the encoding is a number other than an infinity.
    pub fn finite(self) -> (r: bool)
        ensures
            r == self.is_finite(),
    {
        self.abs_bits() < INFINITY_BITS
    }

    /// The number nearest to `v`.
    pub fn from_i64(v: i64) -> (r: Double)
        ensures
            r == Double::of_int(v as int),
    {
        if v < 0 {
            let m: u64 = ((-(v + 1)) as u64) + 1;
            let magnitude: u64 = nearest_magnitude_of(m);
            Double { bits: SIGN_BIT + magnitude }
        } else {
            Double { bits: nearest_magnitude_of(v as u64) }
        }
    }

    /// The number nearest to `v`.
    pub fn from_u64(v: u64) -> (r: Double)
        ensures
            r == Double::of_int(v as int),
    {
        Double { bits: nearest_magnitude_of(v) }
    }

    /// The exponent field, with 1 in place of 0, and the significand.
    pub fn decode(self) -> (parts: (u64, u64))
        ensures
            parts.0 == self.scale(),
            parts.1 == self.significand(),
            1 <= parts.0 <= 2047,
            parts.1 < 0x20_0000_0000_0000,
    {
        let magnitude: u64 = self.abs_bits();
        let field: u64 = magnitude / EXPONENT_UNIT;
        let fraction: u64 = magnitude % EXPONENT_UNIT;
        if field == 0 {
            (1, fraction)
        } else {
            (field, EXPONENT_UNIT + fraction)
        }
    }

    /// The number as a signed 64-bit integer, as a cast makes it.
    pub fn to_i64(self) -> (r: i64)
        ensures
            r == self.spec_to_i64(),
    {
        if self.nan() {
            return 0;
        }
        let negative = self.is_negative();
        if !self.finite() {
            return if negative { i64::MIN } else { i64::MAX };
        }
        let parts = self.decode();
        let e: u64 = parts.0;
        let m: u64 = parts.1;
        proof {
            lemma2_to64();
            lemma2_to64_rest();
            lemma_scaled_bounds(self);
        }
        if e >= 1086 {
            proof {
                let k = (e - 1075) as nat;
                if k > 11 {
                    lemma_pow2_strictly_increases(11, k);
                }
                assert(m * pow2(k) >= 0x10_0000_0000_0000 * 0x800) by (nonlinear_arith)
                    requires
                        m >= 0x10_0000_0000_0000,
                        pow2(k) >= 0x800,
                ;
            }
            return if negative { i64::MIN } else { i64::MAX };
        }
        let whole: u64 = if e >= 1075 {
            let unit: u128 = power_of_two(e - 1075);
            proof {
                let k = (e - 1075) as nat;
                if k < 10 {
                    lemma_pow2_strictly_increases(k, 10);
                }
                assert(m * unit < 0x20_0000_0000_0000 * 0x400) by (nonlinear_arith)
                    requires
                        0 <= m < 0x20_0000_0000_0000,
                        0 < unit <= 0x400,
                ;
                assert(m * unit >= 0) by (nonlinear_arith)
                    requires
                        0 <= m,
                        0 < unit,
                ;
            }
            m * (unit as u64)
        } else {
            let k: u64 = 1075 - e;
            if k >= 53 {
                proof {
                    if k > 53 {
                        lemma_pow2_strictly_increases(53, k as nat);
                    }
                    lemma_basic_div(m as int, pow2(k as nat) as int);
                }
                0
            } else {
                let unit: u128 = power_of_two(k);
                proof {
                    if k < 52 {
                        lemma_pow2_strictly_increases(k as nat, 52);
                    }
                    lemma_fundamental_div_mod(m as int, unit as int);
                    assert(m / (unit as u64) <= m) by {
                        lemma_div_nonincreasing(m as int, unit as int);
                    }
                }
                m / (unit as u64)
            }
        };
        assert(whole == self.whole_magnitude());
        assert(whole < 0x8000_0000_0000_0000);
        if negative {
            -(whole as i64)
        } else {
            whole as i64
        }
    }

    /// Whether the difference `max - self`, computed in binary64, is a
    /// finite number above 0.
    #[verifier::rlimit(50)]
    pub fn has_finite_span(self, max: Double) -> (r: bool)
        requires
            self.is_finite(),
            max.is_finite(),
        ensures
            r == Double::spans(self, max),
    {
        proof {
            lemma2_to64();
            lemma2_to64_rest();
            lemma_rank_is_value_order(self, max);
            lemma_scaled_bounds(self);
            lemma_scaled_bounds(max);
            lemma_span_limit();
        }
        if !self.below(max) {
            return false;
        }
        if max.is_negative() || !self.is_negative() {
            proof {
                let top = if max.negative() { self } else { max };
                lemma_scaled_ceiling(top);
            }
            return true;
        }
        let low = self.decode();
        let high = max.decode();
        if low.0 < 1993 || high.0 < 1993 {
            proof {
                lemma_scaled_ceiling(self);
                lemma_scaled_ceiling(max);
                if low.0 < 1993 {
                    if low.0 + 52 < 2044 {
                        lemma_pow2_strictly_increases(
                            (low.0 + 52) as nat,
                            2044,
                        );
                    }
                } else {
                    if high.0 + 52 < 2044 {
                        lemma_pow2_strictly_increases(
                            (high.0 + 52) as nat,
                            2044,
                        );
                    }
                }
            }
            return true;
        }
        let low_unit: u128 = power_of_two(low.0 - 1993);
        let high_unit: u128 = power_of_two(high.0 - 1993);
        proof {
            lemma_pow2_adds((low.0 - 1993) as nat, 1992);
            lemma_pow2_adds((high.0 - 1993) as nat, 1992);
            lemma_pow2_adds(52, 1992);
            lemma_pow2_adds(53, 53);
            if low.0 - 1993 < 53 {
                lemma_pow2_strictly_increases((low.0 - 1993) as nat, 53);
            }
            if high.0 - 1993 < 53 {
                lemma_pow2_strictly_increases(
                    (high.0 - 1993) as nat,
                    53,
                );
            }
            assert(low.1 * low_unit < 0x20_0000_0000_0000 * 0x20_0000_0000_0000)
                by (nonlinear_arith)
                requires
                    0 <= low.1 < 0x20_0000_0000_0000,
                    0 < low_unit <= 0x20_0000_0000_0000,
            ;
            assert(high.1 * high_unit < 0x20_0000_0000_0000 * 0x20_0000_0000_0000)
                by (nonlinear_arith)
                requires
                    0 <= high.1 < 0x20_0000_0000_0000,
                    0 < high_unit <= 0x20_0000_0000_0000,
            ;
            assert(low.1 * low_unit >= 0 && high.1 * high_unit >= 0) by (nonlinear_arith)
                requires
                    0 <= low.1,
                    0 <= high.1,
                    0 < low_unit,
                    0 < high_unit,
            ;
        }
        let low_part: u128 = (low.1 as u128) * low_unit;
        let high_part: u128 = (high.1 as u128) * high_unit;
        proof {
            let base = pow2(1992);
            lemma_pow2_pos(1992);
            assert(self.scaled_magnitude() == low_part * base) by (nonlinear_arith)
                requires
                    self.scaled_magnitude() == low.1 * (low_unit * base),
                    low_part == low.1 * low_unit,
            ;
            assert(max.scaled_magnitude() == high_part * base) by (nonlinear_arith)
                requires
                    max.scaled_magnitude() == high.1 * (high_unit * base),
                    high_part == high.1 * high_unit,
            ;
            assert(0x3f_ffff_ffff_ffff * pow2(2044) == (0x3f_ffff_ffff_ffff * 0x10_0000_0000_0000)
                * base) by (nonlinear_arith)
                requires
                    pow2(2044) == 0x10_0000_0000_0000 * base,
            ;
            assert((low_part + high_part) * base == low_part * base + high_part * base)
                by (nonlinear_arith);
            let sum = low_part + high_part;
            let limit = 0x3f_ffff_ffff_ffff * 0x10_0000_0000_0000;
            assert((sum * base < limit * base) <==> sum < limit) by (nonlinear_arith)
                requires
                    base > 0,
            ;
        }
        low_part + high_part < 0x3f_ffff_ffff_ffff * 0x10_0000_0000_0000
    }

    /// Whether the quotient `part / whole`, computed in binary64, is at most
    /// `self`.
    #[verifier::rlimit(50)]
    pub fn at_least_ratio(self, part: usize, whole: usize) -> (r: bool)
        requires
            0 < part <= whole,
        ensures
            r == self.bounds_quotient(part as nat, whole as nat),
    {
        if self.nan() || self.is_negative() {
            return false;
        }
        if !self.finite() {
            return true;
        }
        let field: u64 = self.bits / EXPONENT_UNIT;
        let fraction: u64 = self.bits % EXPONENT_UNIT;
        let e: u64 = if field == 0 { 1 } else { field };
        let m: u64 = if field == 0 { fraction } else { EXPONENT_UNIT + fraction };
        let twice: u128 = 2 * (m as u128) + 1;
        proof {
            lemma2_to64();
            lemma2_to64_rest();
            assert(field < 2047);
            assert(self.exponent_field() == field);
            assert(self.significand() == m);
            assert(whole * twice < 0x1_0000_0000_0000_0000 * 0x40_0000_0000_0000)
                by (nonlinear_arith)
                requires
                    0 <= whole < 0x1_0000_0000_0000_0000,
                    0 < twice < 0x40_0000_0000_0000,
            ;
            assert(whole * twice >= twice) by (nonlinear_arith)
                requires
                    whole >= 1,
                    twice > 0,
            ;
        }
        let right: u128 = (whole as u128) * twice;
        if e >= 1023 {
            proof {
                assert(twice > pow2(53));
                if e <= 1076 {
                    let s = (1076 - e) as nat;
                    if s < 53 {
                        lemma_pow2_strictly_increases(s, 53);
                    }
                    assert(part * pow2(s) <= whole * pow2(53)) by (nonlinear_arith)
                        requires
                            0 < part <= whole,
                            0 <= pow2(s) <= pow2(53),
                    ;
                    assert(whole * pow2(53) < whole * twice) by (nonlinear_arith)
                        requires
                            whole >= 1,
                            pow2(53) < twice,
                    ;
                } else {
                    let s = (e - 1076) as nat;
                    lemma_pow2_pos(s);
                    assert(whole * twice * pow2(s) >= whole * twice) by (nonlinear_arith)
                        requires
                            whole * twice >= 0,
                            pow2(s) >= 1,
                    ;
                    assert(whole * twice > whole) by (nonlinear_arith)
                        requires
                            whole >= 1,
                            twice > 1,
                    ;
                }
            }
            return true;
        }
        let shift: u64 = 1076 - e;
        if shift >= 118 {
            proof {
                lemma_pow2_adds(64, 54);
                if shift > 118 {
                    lemma_pow2_strictly_increases(118, shift as nat);
                }
                assert(part * pow2(shift as nat) >= pow2(shift as nat)) by (nonlinear_arith)
                    requires
                        part >= 1,
                        pow2(shift as nat) >= 0,
                ;
                assert(0x1_0000_0000_0000_0000 * twice <= 0x1_0000_0000_0000_0000
                    * 0x40_0000_0000_0000) by (nonlinear_arith)
                    requires
                        twice <= 0x40_0000_0000_0000,
                ;
            }
            return false;
        }
        let mut unit: u128 = 1;
        let mut k: u64 = 0;
        while k < shift
            invariant
                k <= shift < 118,
                unit == pow2(k as nat),
                1 <= unit <= 0x20_0000_0000_0000_0000_0000_0000_0000,
            decreases shift - k,
        {
            proof {
                lemma_pow2_unfold((k + 1) as nat);
                lemma2_to64();
                lemma2_to64_rest();
                lemma_pow2_adds(64, 53);
                if k + 1 < 117 {
                    lemma_pow2_strictly_increases((k + 1) as nat, 117);
                }
            }
            unit = unit * 2;
            k = k + 1;
        }
        proof {
            lemma_fundamental_div_mod(right as int, unit as int);
            lemma_fundamental_div_mod(right as int - 1, unit as int);
        }
        if m % 2 == 0 {
            let limit: u128 = right / unit;
            proof {
                lemma_scaled_at_most(part as int, unit as int, right as int);
            }
            part as u128 <= limit
        } else {
            let limit: u128 = (right - 1) / unit;
            proof {
                lemma_scaled_at_most(part as int, unit as int, right as int - 1);
            }
            part as u128 <= limit
        }
    }

    /// Whether `self` is numerically below `other`.
    pub fn below(self, other: Double) -> (r: bool)
        ensures
            r == self.spec_lt(other),
    {
        if self.nan() || other.nan() {
            return false;
        }
        let a: u64 = self.abs_bits();
        let b: u64 = other.abs_bits();
        if self.is_negative() {
            if other.is_negative() {
                b < a
            } else {
                a > 0 || b > 0
            }
        } else {
            if other.is_negative() {
                false
            } else {
                a < b
            }
        }
    }

    /// Whether `self` is numerically above `other`.
    pub fn above(self, other: Double) -> (r: bool)
        ensures
            r == other.spec_lt(self),
    {
        other.below(self)
    }

    /// Whether the two are numerically equal.
    pub fn same(self, other: Double) -> (r: bool)
        ensures
            r == self.spec_same(other),
    {
        if self.nan() || other.nan() {
            return false;
        }
        let a: u64 = self.abs_bits();
        let b: u64 = other.abs_bits();
        if a == 0 && b == 0 {
            true
        } else {
            self.bits == other.bits
        }
    }

    /// The lesser of the two.
    pub fn min(self, other: Double) -> (r: Double)
        ensures
            r == self.spec_min(other),
    {
        if self.nan() {
            other
        } else if other.nan() {
            self
        } else if self.below(other) {
            self
        } else if other.below(self) {
            other
        } else if self.is_negative() {
            self
        } else {
            other
        }
    }

    /// The greater of the two.
    pub fn max(self, other: Double) -> (r: Double)
        ensures
            r == self.spec_max(other),
    {
        if self.nan() {
            other
        } else if other.nan() {
            self
        } else if other.below(self) {
            self
        } else if self.below(other) {
            other
        } else if self.is_negative() {
            other
        } else {
            self
        }
    }
}

/// A greater integer has no lesser nearest number, and two integers whose
/// nearest numbers are numerically equal have the same nearest number.
pub proof fn lemma_of_int_monotone(v: int, w: int)
    requires
        -0x8000_0000_0000_0000 <= v <= w < 0x1_0000_0000_0000_0000,
    ensures
        Double::of_int(v).rank() <= Double::of_int(w).rank(),
        Double::of_int(v).rank() == Double::of_int(w).rank() ==> Double::of_int(v)
            == Double::of_int(w),
        Double::of_int(v).spec_min(Double::of_int(w)) == Double::of_int(v),
        Double::of_int(w).spec_min(Double::of_int(v)) == Double::of_int(v),
        Double::of_int(v).spec_max(Double::of_int(w)) == Double::of_int(w),
        Double::of_int(w).spec_max(Double::of_int(v)) == Double::of_int(w),
{
    lemma2_to64();
    lemma2_to64_rest();
    lemma_of_int_is_number(v);
    lemma_of_int_is_number(w);
    lemma_pow2_pos(52);
    if v < 0 {
        lemma_nearest_magnitude_binade((-v) as nat);
        assert((1023 + top_bit((-v) as nat)) * pow2(52) > 0) by (nonlinear_arith)
            requires
                pow2(52) > 0,
        ;
        if w < 0 {
            lemma_nearest_magnitude_monotone((-w) as nat, (-v) as nat);
        }
    } else {
        lemma_nearest_magnitude_monotone(v as nat, w as nat);
    }
}

/// The lesser and the greater of three numbers do not depend on how they
/// are grouped.
pub proof fn lemma_min_max_associative(a: Double, b: Double, c: Double)
    ensures
        a.spec_min(b).spec_min(c) == a.spec_min(b.spec_min(c)),
        a.spec_max(b).spec_max(c) == a.spec_max(b.spec_max(c)),
{
}

/// The power of two of an exponent of at most 126.
pub fn power_of_two(k: u64) -> (p: u128)
    requires
        k <= 126,
    ensures
        p == pow2(k as nat),
        1 <= p <= 0x4000_0000_0000_0000_0000_0000_0000_0000,
{
    proof {
        lemma2_to64();
        lemma2_to64_rest();
        lemma_pow2_adds(63, 63);
    }
    let mut p: u128 = 1;
    let mut i: u64 = 0;
    while i < k
        invariant
            i <= k <= 126,
            p == pow2(i as nat),
            1 <= p <= 0x4000_0000_0000_0000_0000_0000_0000_0000,
            pow2(126) == 0x4000_0000_0000_0000_0000_0000_0000_0000,
        decreases k - i,
    {
        proof {
            lemma_pow2_unfold((i + 1) as nat);
            if i + 1 < 126 {
                lemma_pow2_strictly_increases((i + 1) as nat, 126);
            }
        }
        p = p * 2;
        i = i + 1;
    }
    p
}

/// A finite number is below `2^(scale + 52)` units and, unless its exponent
/// field is 0, at least `2^(scale + 51)`.
pub proof fn lemma_scaled_bounds(d: Double)
    requires
        d.is_finite(),
    ensures
        1 <= d.scale() <= 2046,
        0 <= d.significand() < 0x20_0000_0000_0000,
        d.exponent_field() != 0 ==> d.significand() >= 0x10_0000_0000_0000,
        0 <= d.scaled_magnitude() < pow2((d.scale() + 52) as nat),
        d.exponent_field() != 0 ==> d.scaled_magnitude() >= pow2((d.scale() + 51) as nat),
        d.scaled_magnitude() <= 0x1f_ffff_ffff_ffff * pow2((d.scale() - 1) as nat),
{
    lemma2_to64();
    lemma2_to64_rest();
    let s = (d.scale() - 1) as nat;
    let m = d.significand();
    lemma_pow2_pos(s);
    lemma_pow2_adds(53, s);
    lemma_pow2_adds(52, s);
    assert(m * pow2(s) < pow2(53) * pow2(s)) by (nonlinear_arith)
        requires
            0 <= m < pow2(53),
            pow2(s) > 0,
    ;
    assert(m * pow2(s) <= 0x1f_ffff_ffff_ffff * pow2(s)) by (nonlinear_arith)
        requires
            0 <= m <= 0x1f_ffff_ffff_ffff,
            pow2(s) > 0,
    ;
    assert(m * pow2(s) >= 0) by (nonlinear_arith)
        requires
            0 <= m,
            pow2(s) > 0,
    ;
    if d.exponent_field() != 0 {
        assert(m * pow2(s) >= pow2(52) * pow2(s)) by (nonlinear_arith)
            requires
                m >= pow2(52),
                pow2(s) > 0,
        ;
    }
}

/// Of two finite numbers the one with the greater encoding has the greater
/// absolute value.
pub proof fn lemma_scaled_monotone(a: Double, b: Double)
    requires
        a.is_finite(),
        b.is_finite(),
        a.magnitude() < b.magnitude(),
    ensures
        a.scaled_magnitude() < b.scaled_magnitude(),
{
    lemma2_to64();
    lemma2_to64_rest();
    lemma_scaled_bounds(a);
    lemma_scaled_bounds(b);
    let fa = a.exponent_field();
    let fb = b.exponent_field();
    assert(fa <= fb);
    if a.scale() == b.scale() {
        let s = (a.scale() - 1) as nat;
        lemma_pow2_pos(s);
        assert(a.significand() < b.significand());
        assert(a.significand() * pow2(s) < b.significand() * pow2(s)) by (nonlinear_arith)
            requires
                a.significand() < b.significand(),
                pow2(s) > 0,
        ;
    } else {
        assert(a.scale() < b.scale());
        assert(fb != 0);
        if a.scale() + 52 < b.scale() + 51 {
            lemma_pow2_strictly_increases(
                (a.scale() + 52) as nat,
                (b.scale() + 51) as nat,
            );
        }
    }
}

/// The numeric order of two finite numbers is the order of their values.
pub proof fn lemma_rank_is_value_order(a: Double, b: Double)
    requires
        a.is_finite(),
        b.is_finite(),
    ensures
        a.rank() < b.rank() <==> a.scaled() < b.scaled(),
        a.rank() == b.rank() <==> a.scaled() == b.scaled(),
{
    lemma_scaled_bounds(a);
    lemma_scaled_bounds(b);
    if a.magnitude() < b.magnitude() {
        lemma_scaled_monotone(a, b);
    } else if b.magnitude() < a.magnitude() {
        lemma_scaled_monotone(b, a);
    }
    if a.magnitude() == 0 {
        assert(a.scaled_magnitude() == 0) by (nonlinear_arith)
            requires
                a.significand() == 0,
                a.scaled_magnitude() == a.significand() * pow2((a.scale() - 1) as nat),
        ;
    } else {
        lemma_scaled_positive(a);
    }
    if b.magnitude() == 0 {
        assert(b.scaled_magnitude() == 0) by (nonlinear_arith)
            requires
                b.significand() == 0,
                b.scaled_magnitude() == b.significand() * pow2((b.scale() - 1) as nat),
        ;
    } else {
        lemma_scaled_positive(b);
    }
}

/// A finite number other than zero has an absolute value above 0.
pub proof fn lemma_scaled_positive(d: Double)
    requires
        d.is_finite(),
        d.magnitude() != 0,
    ensures
        d.scaled_magnitude() > 0,
{
    let s = (d.scale() - 1) as nat;
    lemma_pow2_pos(s);
    assert(d.significand() > 0);
    assert(d.significand() * pow2(s) > 0) by (nonlinear_arith)
        requires
            d.significand() > 0,
            pow2(s) > 0,
    ;
}

/// No finite number is as great as the least difference that rounds to
/// infinity.
pub proof fn lemma_scaled_ceiling(d: Double)
    requires
        d.is_finite(),
    ensures
        d.scaled_magnitude() <= 0x1f_ffff_ffff_ffff * pow2(2045),
        0x1f_ffff_ffff_ffff * pow2(2045) + pow2(2044) == 0x3f_ffff_ffff_ffff * pow2(2044),
{
    lemma_scaled_bounds(d);
    lemma_span_limit();
    let s = (d.scale() - 1) as nat;
    if s < 2045 {
        lemma_pow2_strictly_increases(s, 2045);
    }
    assert(0x1f_ffff_ffff_ffff * pow2(s) <= 0x1f_ffff_ffff_ffff * pow2(2045)) by (nonlinear_arith)
        requires
            pow2(s) <= pow2(2045),
    ;
}

/// The least difference that rounds to infinity lies half a unit above the
/// greatest finite number.
pub proof fn lemma_span_limit()
    ensures
        0x1f_ffff_ffff_ffff * pow2(2045) + pow2(2044) == 0x3f_ffff_ffff_ffff * pow2(2044),
        pow2(2044) > 0,
{
    lemma_pow2_unfold(2045);
    lemma_pow2_pos(2044);
    assert(0x1f_ffff_ffff_ffff * (2 * pow2(2044)) + pow2(2044) == 0x3f_ffff_ffff_ffff * pow2(2044))
        by (nonlinear_arith);
}

/// A multiple of a unit is at most a bound exactly when the multiplier is
/// at most the bound's quotient by the unit.
pub proof fn lemma_scaled_at_most(d: int, unit: int, bound: int)
    requires
        unit > 0,
        d >= 0,
        bound >= 0,
    ensures
        (d * unit <= bound) == (d <= bound / unit),
{
    lemma_fundamental_div_mod(bound, unit);
    let q = bound / unit;
    let r = bound % unit;
    if d <= q {
        assert(d * unit <= q * unit) by (nonlinear_arith)
            requires
                d <= q,
                unit > 0,
        ;
        assert(unit * q == q * unit) by (nonlinear_arith);
    } else {
        assert(d * unit >= (q + 1) * unit) by (nonlinear_arith)
            requires
                d >= q + 1,
                unit > 0,
        ;
        assert((q + 1) * unit == unit * q + unit) by (nonlinear_arith);
    }
}

/// The encoding of the number nearest to `m`.
pub fn nearest_magnitude_of(m: u64) -> (r: u64)
    ensures
        r == nearest_magnitude(m as nat),
        r < INFINITY_BITS,
{
    if m == 0 {
        return 0;
    }
    proof {
        lemma2_to64();
        lemma2_to64_rest();
    }
    let mut e: u64 = 0;
    let mut p: u64 = 1;
    while m / 2 >= p
        invariant
            p == pow2(e as nat),
            1 <= p <= m,
            e <= 63,
        decreases m - p,
    {
        proof {
            lemma_pow2_unfold((e + 1) as nat);
            lemma2_to64();
            lemma2_to64_rest();
            if e >= 63 {
                assert(pow2(64) == 0x10000000000000000);
                assert(false);
            }
        }
        p = p * 2;
        e = e + 1;
    }
    proof {
        lemma_top_bit(m as nat, e as nat);
    }
    if e <= 52 {
        let mut mantissa: u64 = m;
        let mut k: u64 = 0;
        while k < 52 - e
            invariant
                e <= 52,
                k <= 52 - e,
                mantissa == m * pow2(k as nat),
                p == pow2(e as nat),
                p <= m < 2 * p,
                mantissa < 2 * pow2((e + k) as nat),
                mantissa >= pow2((e + k) as nat),
            decreases 52 - e - k,
        {
            proof {
                lemma_pow2_unfold((k + 1) as nat);
                lemma_pow2_unfold((e + k + 1) as nat);
                lemma2_to64();
                lemma2_to64_rest();
                lemma_pow2_adds(e as nat, k as nat);
                assert(pow2((e + k + 1) as nat) <= pow2(52)) by {
                    if e + k + 1 < 52 {
                        lemma_pow2_strictly_increases(
                            (e + k + 1) as nat,
                            52,
                        );
                    }
                }
                assert(m * (2 * pow2(k as nat)) == 2 * (m * pow2(k as nat))) by (nonlinear_arith);
            }
            mantissa = mantissa * 2;
            k = k + 1;
        }
        assert(pow2((e + k) as nat) == pow2(52));
        (1023 + e) * EXPONENT_UNIT + (mantissa - EXPONENT_UNIT)
    } else {
        let mut unit: u64 = 1;
        let mut s: u64 = 0;
        while s < e - 52
            invariant
                52 < e <= 63,
                s <= e - 52,
                unit == pow2(s as nat),
                unit <= 0x800,
            decreases e - 52 - s,
        {
            proof {
                lemma_pow2_unfold((s + 1) as nat);
                lemma2_to64();
                if s + 1 < 11 {
                    lemma_pow2_strictly_increases((s + 1) as nat, 11);
                }
            }
            unit = unit * 2;
            s = s + 1;
        }
        let kept: u64 = m / unit;
        let lost: u64 = m % unit;
        proof {
            lemma_pow2_adds(52, s as nat);
            lemma_pow2_pos(s as nat);
            assert(pow2(e as nat) == pow2(52) * unit);
            lemma_fundamental_div_mod(m as int, unit as int);
            assert(kept >= pow2(52)) by {
                lemma_div_is_ordered((pow2(52) * unit) as int, m as int, unit as int);
                lemma_mul_is_commutative(pow2(52) as int, unit as int);
                lemma_div_multiples_vanish(pow2(52) as int, unit as int);
            }
            assert(kept < 2 * pow2(52)) by {
                if kept >= 2 * pow2(52) {
                    lemma_mul_inequality(2 * pow2(52) as int, kept as int, unit as int);
                    assert(unit * kept >= unit * (2 * pow2(52))) by (nonlinear_arith)
                        requires
                            kept >= 2 * pow2(52),
                            unit >= 0,
                    ;
                    assert(unit * (2 * pow2(52)) == 2 * (pow2(52) * unit)) by (nonlinear_arith);
                    assert(false);
                }
            }
        }
        let half: u64 = unit / 2;
        let up: u64 = if lost > half || (lost == half && kept % 2 == 1) {
            1
        } else {
            0
        };
        proof {
            lemma_pow2_unfold(s as nat);
            assert(unit == 2 * half);
        }
        (1023 + e) * EXPONENT_UNIT + (kept - EXPONENT_UNIT) + up
    }
}

} // verus!
