//! IEEE 754 doubles held as bit patterns.
//!
//! Rates, delays and thresholds are doubles. To order them and to round them to whole
//! numbers is decided here on the bit pattern, against the number that the pattern stands
//! for.
use vstd::arithmetic::div_mod::{
    lemma_div_is_ordered, lemma_fundamental_div_mod, lemma_fundamental_div_mod_converse,
    lemma_mod_multiples_vanish,
};
use vstd::arithmetic::power2::{
    lemma2_to64, lemma2_to64_rest, lemma_pow2_adds, lemma_pow2_pos, lemma_pow2_strictly_increases,
    pow2,
};
use vstd::bits::lemma_u64_shl_is_mul;
use vstd::prelude::*;

verus! {

/// The bit that tells negative numbers (and the negative zero) apart.
pub const SIGN_BIT: u64 = 0x8000_0000_0000_0000;

/// What one step of the exponent adds to the bit pattern.
pub const EXPONENT_STEP: u64 = 0x0010_0000_0000_0000;

/// The pattern of positive infinity. Larger patterns (without the sign) are not numbers.
pub const INFINITY_BITS: u64 = 0x7FF0_0000_0000_0000;

/// A double, as the 64 bits that encode it.
#[derive(Clone, Copy, Debug, PartialEq, Eq, Structural)]
pub struct Float64 {
    pub bits: u64,
}

/// One, in the unit in which `Float64::value` counts.
pub open spec fn unit() -> int {
    pow2(1074) as int
}

/// The number that a pattern without its sign stands for, as a multiple of the
/// smallest positive double. (`unit()` of these make one.)
pub open spec fn magnitude(pattern: int) -> int {
    if pattern < EXPONENT_STEP {
        pattern
    } else {
        (EXPONENT_STEP + pattern % (EXPONENT_STEP as int)) * pow2(
            (pattern / (EXPONENT_STEP as int) - 1) as nat,
        )
    }
}

impl Float64 {
    /// Whether the sign bit is set.
    pub open spec fn negative(self) -> bool {
        self.bits >= SIGN_BIT
    }

    /// The bits without the sign.
    pub open spec fn pattern(self) -> int {
        if self.negative() {
            self.bits - SIGN_BIT
        } else {
            self.bits as int
        }
    }

    /// Whether this is no number.
    pub open spec fn nan(self) -> bool {
        self.pattern() > INFINITY_BITS
    }

    /// Whether this is a number other than the two infinities.
    pub open spec fn finite(self) -> bool {
        self.pattern() < INFINITY_BITS
    }

    /// The number, as a multiple of the smallest positive double. The infinities
    /// stand beyond every finite number.
    pub open spec fn value(self) -> int {
        if self.negative() {
            -magnitude(self.pattern())
        } else {
            magnitude(self.pattern())
        }
    }

    /// `self < other` as IEEE 754 has it: false where either is no number.
    pub open spec fn below(self, other: Float64) -> bool {
        !self.nan() && !other.nan() && self.value() < other.value()
    }

    /// `self == other` as IEEE 754 has it: zeros are equal, what is no number equals nothing.
    pub open spec fn same_number(self, other: Float64) -> bool {
        !self.nan() && !other.nan() && self.value() == other.value()
    }

    /// The larger of two numbers; where one is no number, the other.
    pub open spec fn larger(self, other: Float64) -> Float64 {
        if self.nan() {
            other
        } else if other.nan() {
            self
        } else if self.value() < other.value() {
            other
        } else {
            self
        }
    }

    /// The smaller of two numbers; where one is no number, the other.
    pub open spec fn smaller(self, other: Float64) -> Float64 {
        if self.nan() {
            other
        } else if other.nan() {
            self
        } else if other.value() < self.value() {
            other
        } else {
            self
        }
    }

    /// Where the IEEE 754 total order puts this: negative before positive,
    /// the negative zero before the positive one, and what is no number at the ends.
    pub open spec fn rank(self) -> int {
        if self.negative() {
            -1 - self.pattern()
        } else {
            self.pattern()
        }
    }

    /// Whether `whole` is this number rounded down to a whole number, with the sign kept.
    /// The infinities, and what is no number, stay as they are.
    pub open spec fn rounds_down_to(self, whole: Float64) -> bool {
        if self.finite() {
            &&& whole.negative() == self.negative()
            &&& whole.finite()
            &&& whole.value() % unit() == 0
            &&& whole.value() <= self.value() < whole.value() + unit()
        } else {
            whole == self
        }
    }

    /// The whole number left when the fraction is cut off, held within the range of
    /// `u64`; 0 for what is no number.
    pub open spec fn truncated(self) -> int {
        if self.nan() || self.value() < 0 {
            0
        } else if self.value() / unit() > u64::MAX {
            u64::MAX as int
        } else {
            self.value() / unit()
        }
    }

    /// The nearest whole number, halves going up, held within the range of `u64`;
    /// 0 for what is no number.
    pub open spec fn nearest(self) -> int {
        if self.nan() || self.value() < 0 {
            0
        } else if (2 * self.value() + unit()) / (2 * unit()) > u64::MAX {
            u64::MAX as int
        } else {
            (2 * self.value() + unit()) / (2 * unit())
        }
    }

    /// Whether the sign bit is set.
    pub fn is_negative(self) -> (r: bool)
        ensures
            r == self.negative(),
    {
        self.bits >= SIGN_BIT
    }

    /// The bits without the sign.
    pub fn pattern_bits(self) -> (r: u64)
        ensures
            r == self.pattern(),
            r < SIGN_BIT,
    {
        if self.bits >= SIGN_BIT {
            self.bits - SIGN_BIT
        } else {
            self.bits
        }
    }

    /// Whether this is no number.
    pub fn is_nan(self) -> (r: bool)
        ensures
            r == self.nan(),
    {
        self.pattern_bits() > INFINITY_BITS
    }

    /// `self < other`.
    pub fn less_than(self, other: Float64) -> (r: bool)
        ensures
            r == self.below(other),
    {
        proof {
            lemma_value_order(self, other);
        }
        if self.is_nan() || other.is_nan() {
            return false;
        }
        let a: u64 = self.pattern_bits();
        let b: u64 = other.pattern_bits();
        if self.is_negative() {
            if other.is_negative() {
                b < a
            } else {
                a != 0 || b != 0
            }
        } else {
            !other.is_negative() && a < b
        }
    }

    /// `self == other`, by number and not by bits.
    pub fn equals(self, other: Float64) -> (r: bool)
        ensures
            r == self.same_number(other),
    {
        proof {
            lemma_value_order(self, other);
        }
        if self.is_nan() || other.is_nan() {
            return false;
        }
        self.bits == other.bits || (self.pattern_bits() == 0 && other.pattern_bits() == 0)
    }

    /// The larger of two numbers; where one is no number, the other.
    pub fn max(self, other: Float64) -> (r: Float64)
        ensures
            r == self.larger(other),
    {
        if self.is_nan() || self.less_than(other) {
            other
        } else {
            self
        }
    }

    /// The smaller of two numbers; where one is no number, the other.
    pub fn min(self, other: Float64) -> (r: Float64)
        ensures
            r == self.smaller(other),
    {
        if self.is_nan() || other.less_than(self) {
            other
        } else {
            self
        }
    }

    /// Whether this stands at or before `other` in the IEEE 754 total order.
    pub fn ranks_at_most(self, other: Float64) -> (r: bool)
        ensures
            r == (self.rank() <= other.rank()),
    {
        let a: u64 = self.pattern_bits();
        let b: u64 = other.pattern_bits();
        if self.is_negative() {
            !other.is_negative() || b <= a
        } else {
            !other.is_negative() && a <= b
        }
    }

    /// This number rounded down to a whole number.
    pub fn floor(self) -> (r: Float64)
        ensures
            self.rounds_down_to(r),
    {
        let m: u64 = self.pattern_bits();
        if m >= 1075 * EXPONENT_STEP {
            proof {
                if self.finite() {
                    lemma_pow2_pos(1074);
                    lemma_whole_beyond(m as int);
                    if self.negative() {
                        lemma_negated_multiple(magnitude(m as int), unit());
                    }
                }
            }
            return self;
        }
        if m < 1023 * EXPONENT_STEP {
            proof {
                lemma_unit_pattern();
                lemma_magnitude_increases(m as int, 1023 * EXPONENT_STEP);
                lemma_pow2_pos(1074);
                if m > 0 {
                    lemma_magnitude_increases(0, m as int);
                }
                vstd::arithmetic::div_mod::lemma_mod_self_0(unit());
                lemma_negated_multiple(unit(), unit());
                vstd::arithmetic::div_mod::lemma_small_mod(0, unit() as nat);
            }
            if m == 0 {
                return self;
            }
            if self.is_negative() {
                return Float64 { bits: SIGN_BIT + 1023 * EXPONENT_STEP };
            }
            return Float64 { bits: 0 };
        }
        let e: u64 = m / EXPONENT_STEP;
        let step: u64 = power_of_two(1075 - e);
        let rest: u64 = m % step;
        proof {
            lemma_pow2_pos(1074);
            lemma_fraction_split(m as int, e as int, step as int, rest as int);
            lemma_pow2_strictly_increases((1075 - e) as nat, 53);
            lemma2_to64();
            let p = pow2((e - 1) as nat) as int;
            let whole = EXPONENT_STEP + m % EXPONENT_STEP - rest;
            lemma_pow2_pos((e - 1) as nat);
            assert((whole + rest) * p == whole * p + rest * p) by (nonlinear_arith);
            assert((whole + step) * p == whole * p + step * p) by (nonlinear_arith);
            assert(0 <= rest * p < step * p) by (nonlinear_arith)
                requires
                    0 <= rest < step,
                    p > 0,
            ;
            lemma_negated_multiple((whole + step) * p, unit());
            if rest == 0 {
                lemma_negated_multiple(whole * p, unit());
            }
        }
        if rest == 0 {
            self
        } else if self.is_negative() {
            proof {
                let p = pow2((e - 1) as nat) as int;
                assert(rest * p > 0) by (nonlinear_arith)
                    requires
                        rest > 0,
                        p > 0,
                ;
            }
            Float64 { bits: SIGN_BIT + (m - rest + step) }
        } else {
            Float64 { bits: m - rest }
        }
    }

    /// This number as a `u64`, with the fraction cut off.
    pub fn to_u64(self) -> (r: u64)
        ensures
            r == self.truncated(),
    {
        proof {
            lemma_value_order(self, self);
            lemma_pow2_pos(1074);
        }
        let m: u64 = self.pattern_bits();
        if m > INFINITY_BITS || self.is_negative() {
            proof {
                vstd::arithmetic::div_mod::lemma_basic_div(0, unit());
            }
            return 0;
        }
        if m < 1023 * EXPONENT_STEP {
            proof {
                lemma_unit_pattern();
                lemma_magnitude_increases(m as int, 1023 * EXPONENT_STEP);
                vstd::arithmetic::div_mod::lemma_basic_div(self.value(), unit());
            }
            return 0;
        }
        let e: u64 = m / EXPONENT_STEP;
        if e >= 1075 {
            return self.whole_to_u64();
        }
        let step: u64 = power_of_two(1075 - e);
        let mantissa: u64 = EXPONENT_STEP + m % EXPONENT_STEP;
        proof {
            let p = pow2((e - 1) as nat) as int;
            lemma_split_unit(e as int, step as int);
            lemma_magnitude_split(e as int, (m % EXPONENT_STEP) as int);
            lemma_fundamental_div_mod(m as int, EXPONENT_STEP as int);
            lemma_pow2_pos((e - 1) as nat);
            lemma_cancel(mantissa as int, step as int, p);
            vstd::arithmetic::div_mod::lemma_div_nonincreasing(mantissa as int, step as int);
        }
        mantissa / step
    }

    /// This number as a `u64`, rounded to the nearest whole number.
    pub fn round_to_u64(self) -> (r: u64)
        ensures
            r == self.nearest(),
    {
        proof {
            lemma_value_order(self, self);
            lemma_pow2_pos(1074);
        }
        let m: u64 = self.pattern_bits();
        if m > INFINITY_BITS || self.is_negative() {
            proof {
                vstd::arithmetic::div_mod::lemma_basic_div(unit(), 2 * unit());
            }
            return 0;
        }
        if m < 1022 * EXPONENT_STEP {
            proof {
                lemma_half_pattern();
                lemma_magnitude_increases(m as int, 1022 * EXPONENT_STEP);
                vstd::arithmetic::div_mod::lemma_basic_div(2 * self.value() + unit(), 2 * unit());
            }
            return 0;
        }
        let e: u64 = m / EXPONENT_STEP;
        if e >= 1075 {
            proof {
                lemma_whole_beyond(m as int);
                let w = self.value() / unit();
                lemma_fundamental_div_mod(self.value(), unit());
                assert(2 * self.value() + unit() == w * (2 * unit()) + unit()) by (nonlinear_arith)
                    requires
                        self.value() == unit() * w,
                ;
                lemma_fundamental_div_mod_converse(
                    2 * self.value() + unit(),
                    2 * unit(),
                    w,
                    unit(),
                );
            }
            return self.whole_to_u64();
        }
        let step: u64 = power_of_two(1075 - e);
        let half: u64 = power_of_two(1074 - e);
        let mantissa: u64 = EXPONENT_STEP + m % EXPONENT_STEP;
        proof {
            let p = pow2((e - 1) as nat) as int;
            lemma_split_unit(e as int, step as int);
            lemma_magnitude_split(e as int, (m % EXPONENT_STEP) as int);
            lemma_fundamental_div_mod(m as int, EXPONENT_STEP as int);
            lemma_pow2_pos((e - 1) as nat);
            lemma_pow2_adds((1074 - e) as nat, 1);
            lemma2_to64();
            assert(step == 2 * half);
            lemma_pow2_strictly_increases((1074 - e) as nat, 53);
            assert(2 * (mantissa * p) + step * p == (mantissa + half) * (2 * p))
                by (nonlinear_arith)
                requires
                    step == 2 * half,
            ;
            assert(2 * (step * p) == step * (2 * p)) by (nonlinear_arith);
            lemma_cancel(mantissa + half, step as int, 2 * p);
            vstd::arithmetic::div_mod::lemma_div_nonincreasing(mantissa + half, step as int);
        }
        (mantissa + half) / step
    }

    /// The number itself, where it has no fraction because it is large.
    fn whole_to_u64(self) -> (r: u64)
        requires
            !self.nan(),
            !self.negative(),
            self.pattern() >= 1075 * EXPONENT_STEP,
        ensures
            r == self.truncated(),
    {
        let m: u64 = self.bits;
        let e: u64 = m / EXPONENT_STEP;
        proof {
            lemma_value_order(self, self);
            lemma_whole_beyond(m as int);
            lemma_pow2_pos(1074);
            lemma_fundamental_div_mod(m as int, EXPONENT_STEP as int);
        }
        let mantissa: u64 = EXPONENT_STEP + m % EXPONENT_STEP;
        if e > 1086 {
            proof {
                if e > 1087 {
                    lemma_pow2_strictly_increases(12, (e - 1075) as nat);
                }
                lemma2_to64();
                let p = pow2((e - 1075) as nat) as int;
                assert(mantissa * p >= EXPONENT_STEP * 4096) by (nonlinear_arith)
                    requires
                        mantissa >= EXPONENT_STEP,
                        p >= 4096,
                        EXPONENT_STEP > 0,
                ;
            }
            return u64::MAX;
        }
        let p: u64 = power_of_two(e - 1075);
        proof {
            lemma2_to64();
            if e < 1086 {
                lemma_pow2_strictly_increases((e - 1075) as nat, 11);
            }
            assert(mantissa * p <= (2 * EXPONENT_STEP - 1) * 2048) by (nonlinear_arith)
                requires
                    0 <= mantissa <= 2 * EXPONENT_STEP - 1,
                    0 <= p <= 2048,
            ;
        }
        mantissa * p
    }
}

/// Two to the power `e`.
fn power_of_two(e: u64) -> (r: u64)
    requires
        e < 64,
    ensures
        r == pow2(e as nat),
        r > 0,
{
    proof {
        lemma_pow2_pos(e as nat);
        lemma2_to64();
        if e < 63 {
            lemma_pow2_strictly_increases(e as nat, 63);
        }
        lemma2_to64_rest();
        lemma_u64_shl_is_mul(1, e);
    }
    1u64 << e
}

/// The negative of a multiple is a multiple.
proof fn lemma_negated_multiple(x: int, d: int)
    requires
        d > 0,
        x % d == 0,
    ensures
        (-x) % d == 0,
{
    lemma_fundamental_div_mod(x, d);
    let q = x / d;
    assert(-x == (-q) * d + 0) by (nonlinear_arith)
        requires
            x == d * q,
    ;
    lemma_fundamental_div_mod_converse(-x, d, -q, 0);
}

/// A common factor cancels in a quotient.
proof fn lemma_cancel(a: int, b: int, c: int)
    requires
        0 <= a,
        0 < b,
        0 < c,
    ensures
        (a * c) / (b * c) == a / b,
        b * c > 0,
{
    lemma_fundamental_div_mod(a, b);
    let q = a / b;
    let r = a % b;
    assert(a * c == q * (b * c) + r * c) by (nonlinear_arith)
        requires
            a == b * q + r,
    ;
    assert(0 <= r * c < b * c) by (nonlinear_arith)
        requires
            0 <= r < b,
            0 < c,
    ;
    lemma_fundamental_div_mod_converse(a * c, b * c, q, r * c);
}

/// One has the exponent field 1023, and no fraction.
proof fn lemma_unit_pattern()
    ensures
        magnitude(1023 * EXPONENT_STEP) == unit(),
{
    lemma_magnitude_split(1023, 0);
    lemma_pow2_adds(52, 1022);
    lemma2_to64_rest();
}

/// One half has the exponent field 1022, and no fraction.
proof fn lemma_half_pattern()
    ensures
        2 * magnitude(1022 * EXPONENT_STEP) == unit(),
{
    lemma_magnitude_split(1022, 0);
    lemma_pow2_adds(52, 1021);
    lemma_pow2_adds(1073, 1);
    lemma2_to64();
    lemma2_to64_rest();
}

/// One, split at the exponent field `e`.
proof fn lemma_split_unit(e: int, step: int)
    requires
        1 <= e <= 1075,
        step == pow2((1075 - e) as nat),
    ensures
        step * pow2((e - 1) as nat) == unit(),
{
    lemma_pow2_adds((1075 - e) as nat, (e - 1) as nat);
}

/// Patterns from the exponent field 1075 on stand for whole numbers.
proof fn lemma_whole_beyond(m: int)
    requires
        1075 * EXPONENT_STEP <= m,
    ensures
        magnitude(m) % unit() == 0,
        magnitude(m) / unit() == (EXPONENT_STEP + m % (EXPONENT_STEP as int)) * pow2(
            (m / (EXPONENT_STEP as int) - 1075) as nat,
        ),
{
    let e = m / (EXPONENT_STEP as int);
    let mantissa = EXPONENT_STEP + m % (EXPONENT_STEP as int);
    lemma_fundamental_div_mod(m, EXPONENT_STEP as int);
    lemma_magnitude_split(e, m % (EXPONENT_STEP as int));
    lemma_pow2_adds((e - 1075) as nat, 1074);
    lemma_pow2_pos(1074);
    let p = pow2((e - 1075) as nat) as int;
    let u = unit();
    assert(mantissa * (p * u) == (mantissa * p) * u + 0) by (nonlinear_arith);
    lemma_fundamental_div_mod_converse(magnitude(m), u, mantissa * p, 0);
}

/// What cutting off the last bits of a pattern does to the number.
proof fn lemma_fraction_split(m: int, e: int, step: int, rest: int)
    requires
        1023 * EXPONENT_STEP <= m < 1075 * EXPONENT_STEP,
        e == m / (EXPONENT_STEP as int),
        step == pow2((1075 - e) as nat),
        rest == m % step,
    ensures
        1023 <= e < 1075,
        0 <= rest < step,
        rest <= m % (EXPONENT_STEP as int),
        m % (EXPONENT_STEP as int) - rest + step <= EXPONENT_STEP,
        ({
            let p = pow2((e - 1) as nat) as int;
            let whole = EXPONENT_STEP + m % (EXPONENT_STEP as int) - rest;
            &&& step * p == unit()
            &&& magnitude(m) == (whole + rest) * p
            &&& magnitude(m - rest) == whole * p
            &&& magnitude(m - rest + step) == (whole + step) * p
            &&& (whole * p) % unit() == 0
            &&& ((whole + step) * p) % unit() == 0
        }),
{
    let wide = EXPONENT_STEP as int;
    let f = m % wide;
    lemma_fundamental_div_mod(m, wide);
    lemma_pow2_pos((1075 - e) as nat);
    lemma_split_unit(e, step);
    // The step divides the width of an exponent.
    lemma_pow2_adds((1075 - e) as nat, (e - 1023) as nat);
    lemma2_to64_rest();
    let k = pow2((e - 1023) as nat) as int;
    assert(wide == k * step) by (nonlinear_arith)
        requires
            wide == step * k,
    ;
    assert(m == (e * k) * step + f) by (nonlinear_arith)
        requires
            m == wide * e + f,
            wide == k * step,
    ;
    lemma_mod_multiples_vanish(e * k, f, step);
    assert(step * (e * k) + f == m) by (nonlinear_arith)
        requires
            m == (e * k) * step + f,
    ;
    assert(rest == f % step);
    lemma_fundamental_div_mod(f, step);
    let q = f / step;
    assert(q < k) by (nonlinear_arith)
        requires
            step * q + rest == f,
            f < k * step,
            rest >= 0,
            step > 0,
    ;
    assert(q >= 0) by (nonlinear_arith)
        requires
            step * q + rest == f,
            f >= 0,
            rest < step,
            step > 0,
    ;
    assert(step * q + step <= k * step) by (nonlinear_arith)
        requires
            q < k,
            step > 0,
    ;
    assert(step * q >= 0) by (nonlinear_arith)
        requires
            q >= 0,
            step > 0,
    ;
    lemma_magnitude_split(e, f);
    lemma_magnitude_split(e, f - rest);
    lemma_magnitude_split(e, f - rest + step);
    let p = pow2((e - 1) as nat) as int;
    let whole = wide + f - rest;
    lemma_pow2_pos(1074);
    assert(whole * p == (k + q) * (step * p) + 0) by (nonlinear_arith)
        requires
            whole == k * step + step * q,
    ;
    lemma_fundamental_div_mod_converse(whole * p, unit(), k + q, 0);
    assert((whole + step) * p == (k + q + 1) * (step * p) + 0) by (nonlinear_arith)
        requires
            whole == k * step + step * q,
    ;
    lemma_fundamental_div_mod_converse((whole + step) * p, unit(), k + q + 1, 0);
}

/// A pattern in the normal range, split at exponent `e`: the fraction may run up to
/// and including the next exponent.
pub proof fn lemma_magnitude_split(e: int, fraction: int)
    requires
        1 <= e,
        0 <= fraction <= EXPONENT_STEP,
    ensures
        magnitude(e * EXPONENT_STEP + fraction) == (EXPONENT_STEP + fraction) * pow2(
            (e - 1) as nat,
        ),
{
    let step = EXPONENT_STEP as int;
    if fraction < step {
        lemma_fundamental_div_mod_converse(e * step + fraction, step, e, fraction);
    } else {
        assert(e * step + fraction == (e + 1) * step + 0) by (nonlinear_arith)
            requires
                fraction == step,
        ;
        lemma_fundamental_div_mod_converse((e + 1) * step + 0, step, e + 1, 0);
        lemma_pow2_adds((e - 1) as nat, 1);
        lemma2_to64();
        let p = pow2((e - 1) as nat) as int;
        assert(step * (p * 2) == (step + step) * p) by (nonlinear_arith);
    }
    assert(e * step + fraction >= step) by (nonlinear_arith)
        requires
            1 <= e,
            0 <= fraction,
            step > 0,
    ;
}

/// A larger pattern stands for a larger number.
pub proof fn lemma_magnitude_increases(a: int, b: int)
    requires
        0 <= a < b,
    ensures
        magnitude(a) < magnitude(b),
{
    let step = EXPONENT_STEP as int;
    let ea = a / step;
    let eb = b / step;
    let fa = a % step;
    let fb = b % step;
    lemma_fundamental_div_mod(a, step);
    lemma_fundamental_div_mod(b, step);
    assert(ea <= eb) by {
        lemma_div_is_ordered(a, b, step);
    }
    if eb == 0 {
    } else {
        let pb = pow2((eb - 1) as nat) as int;
        lemma_pow2_pos((eb - 1) as nat);
        lemma_magnitude_split(eb, fb);
        assert(b == eb * step + fb);
        assert((step + fb) * pb >= step * pb) by (nonlinear_arith)
            requires
                fb >= 0,
                pb > 0,
        ;
        if ea == 0 {
            assert(step * pb >= step) by (nonlinear_arith)
                requires
                    pb > 0,
                    step > 0,
            ;
        } else {
            let pa = pow2((ea - 1) as nat) as int;
            lemma_pow2_pos((ea - 1) as nat);
            lemma_magnitude_split(ea, fa);
            assert(a == ea * step + fa);
            if ea == eb {
                assert((step + fa) * pa < (step + fb) * pa) by (nonlinear_arith)
                    requires
                        fa < fb,
                        pa > 0,
                ;
            } else {
                lemma_pow2_adds((ea - 1) as nat, 1);
                lemma2_to64();
                if ea < eb - 1 {
                    lemma_pow2_strictly_increases(ea as nat, (eb - 1) as nat);
                }
                assert(pb >= 2 * pa);
                assert((step + fa) * pa < step * pb) by (nonlinear_arith)
                    requires
                        0 <= fa < step,
                        pa > 0,
                        pb >= 2 * pa,
                ;
            }
        }
    }
}

/// How the order of the numbers follows from the order of the patterns.
pub proof fn lemma_value_order(a: Float64, b: Float64)
    ensures
        a.pattern() < b.pattern() ==> magnitude(a.pattern()) < magnitude(b.pattern()),
        b.pattern() < a.pattern() ==> magnitude(b.pattern()) < magnitude(a.pattern()),
        a.pattern() > 0 ==> magnitude(a.pattern()) > 0,
        b.pattern() > 0 ==> magnitude(b.pattern()) > 0,
        magnitude(0) == 0,
{
    if a.pattern() < b.pattern() {
        lemma_magnitude_increases(a.pattern(), b.pattern());
    }
    if b.pattern() < a.pattern() {
        lemma_magnitude_increases(b.pattern(), a.pattern());
    }
    if a.pattern() > 0 {
        lemma_magnitude_increases(0, a.pattern());
    }
    if b.pattern() > 0 {
        lemma_magnitude_increases(0, b.pattern());
    }
}

} // verus!
