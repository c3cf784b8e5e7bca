//! How far the rounded results of doubles are from the exact ones.
use crate::arithmetic::{
    joined, law_whole_numbers_are_exact, lemma_exact_is_nearest, lemma_nearest_to_zero,
    lemma_rounded_is, lemma_rounded_is_nearest, lemma_rounding_keeps_order, rounded, seconds_of,
    size,
};
use crate::clock::LONGEST_SPAN;
use crate::float64::{
    lemma_magnitude_increases, lemma_magnitude_split, lemma_value_order, magnitude, unit, Float64,
    EXPONENT_STEP, INFINITY_BITS,
};
use vstd::arithmetic::power2::{
    lemma2_to64, lemma2_to64_rest, lemma_pow2_adds, lemma_pow2_pos, lemma_pow2_strictly_increases,
    pow2,
};
use vstd::prelude::*;

verus! {

/// Two to the power 53: a double is that precise.
pub open spec fn precision() -> int {
    0x20_0000_0000_0000
}

/// Whether `n / d` is within `k` parts in two to the power 53 of `num / den`.
pub open spec fn near(n: int, d: int, num: int, den: int, k: int) -> bool {
    (precision() - k) * (num * d) <= (n * den) * precision() <= (precision() + k) * (num * d)
}

/// Larger than anything that is measured: two to the power 200.
pub open spec fn huge() -> int {
    pow2(1274) as int
}

/// The next double is no further away than a double's precision.
proof fn lemma_gap(p: int)
    requires
        EXPONENT_STEP <= p,
    ensures
        (magnitude(p + 1) - magnitude(p)) * EXPONENT_STEP <= magnitude(p),
{
    let step = EXPONENT_STEP as int;
    let e = p / step;
    let f = p % step;
    vstd::arithmetic::div_mod::lemma_fundamental_div_mod(p, step);
    assert(e >= 1);
    let w = pow2((e - 1) as nat) as int;
    lemma_pow2_pos((e - 1) as nat);
    assert(p == e * step + f);
    lemma_magnitude_split(e, f);
    if f + 1 < step {
        assert(p + 1 == e * step + (f + 1));
        lemma_magnitude_split(e, f + 1);
    } else {
        assert(p + 1 == (e + 1) * step + 0) by (nonlinear_arith)
            requires
                p == e * step + f,
                f + 1 == step,
        ;
        lemma_magnitude_split(e + 1, 0);
        lemma_pow2_adds(1, (e - 1) as nat);
        lemma2_to64();
        assert(step * (2 * w) == (step + f + 1) * w) by (nonlinear_arith)
            requires
                f + 1 == step,
        ;
    }
    assert((step + f + 1) * w - (step + f) * w == w) by (nonlinear_arith);
    assert(w * step <= (step + f) * w) by (nonlinear_arith)
        requires
            f >= 0,
            w > 0,
    ;
}

/// A quotient that is neither tiny nor huge is rounded by no more than a double's precision.
pub proof fn lemma_rounding_is_near(n: int, d: int)
    requires
        d > 0,
        EXPONENT_STEP * d <= n <= huge() * d,
    ensures
        EXPONENT_STEP <= rounded(n, d) < INFINITY_BITS,
        EXPONENT_STEP <= magnitude(rounded(n, d)) <= huge(),
        near(magnitude(rounded(n, d)), 1, n, d, 1),
{
    let step = EXPONENT_STEP as int;
    let p = rounded(n, d);
    lemma_rounded_is_nearest(n, d);
    lemma2_to64();
    lemma2_to64_rest();
    lemma_magnitude_split(1, 0);
    assert(step * 1 == step);
    assert(magnitude(step) == step) by {
        assert((step + 0) * pow2(0) == step) by (nonlinear_arith)
            requires
                pow2(0) == 1,
        ;
    }
    lemma_rounding_keeps_order(n, d, step);
    lemma_magnitude_split(1223, 0);
    lemma_pow2_adds(52, 1222);
    lemma_rounding_keeps_order(n, d, 1223 * step);
    if p > step {
        lemma_magnitude_increases(step, p);
    }
    if p < 1223 * step {
        lemma_magnitude_increases(p, 1223 * step);
    }
    let here = magnitude(p);
    let above = magnitude(p + 1);
    let below = magnitude(p - 1);
    lemma_gap(p);
    let k = precision();
    assert(k == 2 * step);
    assert(2 * n <= (here + above) * d);
    assert(2 * n >= (below + here) * d);
    if n >= here * d {
        let gap = above - here;
        assert((here + above) * d == 2 * (here * d) + gap * d) by (nonlinear_arith)
            requires
                gap == above - here,
        ;
        let rest = n - here * d;
        assert(2 * rest <= gap * d);
        assert(rest * (2 * step) <= here * d) by (nonlinear_arith)
            requires
                2 * rest <= gap * d,
                gap * step <= here,
                step > 0,
                d > 0,
        ;
    } else {
        assert(p > step);
        lemma_gap(p - 1);
        let gap = here - below;
        assert((below + here) * d == 2 * (here * d) - gap * d) by (nonlinear_arith)
            requires
                gap == here - below,
        ;
        let rest = here * d - n;
        assert(2 * rest <= gap * d);
        assert(rest * (2 * step) <= below * d) by (nonlinear_arith)
            requires
                2 * rest <= gap * d,
                gap * step <= below,
                step > 0,
                d > 0,
        ;
        lemma_magnitude_increases(p - 1, p);
        assert(2 * (below * d) <= (below + here) * d) by (nonlinear_arith)
            requires
                below <= here,
                d > 0,
        ;
    }
    assert((here * d) * k == n * k + (here * d - n) * k) by (nonlinear_arith);
    assert((k + 1) * (n * 1) == n * k + n) by (nonlinear_arith);
    assert((k - 1) * (n * 1) == n * k - n) by (nonlinear_arith);
    assert((n - here * d) * k == -((here * d - n) * k)) by (nonlinear_arith);
}

/// What is near to something that is near is near.
pub proof fn lemma_near_chain(v: int, n: int, d: int, num: int, den: int, k1: int, k2: int)
    requires
        near(v, 1, n, d, k1),
        near(n, d, num, den, k2),
        0 <= k1 <= 100,
        0 <= k2 <= 100,
        v >= 0,
        n >= 0,
        num >= 0,
        d > 0,
        den > 0,
    ensures
        near(v, 1, num, den, k1 + k2 + 1),
{
    let p = precision();
    let k = k1 + k2 + 1;
    let vd = v * d;
    let x = n * den;
    let y = num * d;
    assert(n * 1 == n && num * 1 == num);
    // (v d) p <= (p + k1) n and (n den) p <= (p + k2) (num d)
    assert((vd * den) * p <= (p + k1) * x && (vd * den) * p >= (p - k1) * x) by (nonlinear_arith)
        requires
            vd * p <= (p + k1) * n,
            vd * p >= (p - k1) * n,
            x == n * den,
            den > 0,
    ;
    assert((p + k1) * (x * p) <= (p + k1) * ((p + k2) * y)) by (nonlinear_arith)
        requires
            x * p <= (p + k2) * y,
            p + k1 > 0,
    ;
    assert((p - k1) * (x * p) >= (p - k1) * ((p - k2) * y)) by (nonlinear_arith)
        requires
            x * p >= (p - k2) * y,
            p - k1 > 0,
    ;
    let a = vd * den;
    assert(a * p * p <= (p + k1) * (x * p)) by (nonlinear_arith)
        requires
            a * p <= (p + k1) * x,
            p > 0,
    ;
    assert(a * p * p >= (p - k1) * (x * p)) by (nonlinear_arith)
        requires
            a * p >= (p - k1) * x,
            p > 0,
    ;
    lemma_factors(p, k1, k2);
    assert(y >= 0) by (nonlinear_arith)
        requires
            num >= 0,
            d > 0,
            y == num * d,
    ;
    let hi = (p + k1) * (p + k2);
    let lo = (p - k1) * (p - k2);
    assert((p + k1) * ((p + k2) * y) == hi * y) by (nonlinear_arith)
        requires
            hi == (p + k1) * (p + k2),
    ;
    assert((p - k1) * ((p - k2) * y) == lo * y) by (nonlinear_arith)
        requires
            lo == (p - k1) * (p - k2),
    ;
    assert(hi * y <= p * (p + k) * y && lo * y >= p * (p - k) * y) by (nonlinear_arith)
        requires
            hi <= p * (p + k),
            lo >= p * (p - k),
            y >= 0,
    ;
    let b = v * den;
    assert(a == b * d) by (nonlinear_arith)
        requires
            a == v * d * den,
            b == v * den,
    ;
    assert(b * p <= (p + k) * num) by (nonlinear_arith)
        requires
            b * d * p * p <= p * (p + k) * (num * d),
            d > 0,
            p > 0,
    ;
    assert(b * p >= (p - k) * num) by (nonlinear_arith)
        requires
            b * d * p * p >= p * (p - k) * (num * d),
            d > 0,
            p > 0,
    ;
}

/// Two small deviations, one after the other.
proof fn lemma_factors(p: int, k1: int, k2: int)
    requires
        p == precision(),
        0 <= k1 <= 100,
        0 <= k2 <= 100,
    ensures
        (p + k1) * (p + k2) <= p * (p + (k1 + k2 + 1)),
        (p - k1) * (p - k2) >= p * (p - (k1 + k2 + 1)),
        (p + (k1 + k2 + 1)) * (p - k2) >= (p + k1) * p,
        (p - (k1 + k2 + 1)) * (p + k2) <= (p - k1) * p,
{
    let k = k1 + k2 + 1;
    assert(0 <= k1 * k2 <= 10000) by (nonlinear_arith)
        requires
            0 <= k1 <= 100,
            0 <= k2 <= 100,
    ;
    assert(0 <= k * k2 <= 20100) by (nonlinear_arith)
        requires
            0 <= k <= 201,
            0 <= k2 <= 100,
    ;
    assert((p + k1) * (p + k2) == p * p + p * (k1 + k2) + k1 * k2) by (nonlinear_arith);
    assert((p - k1) * (p - k2) == p * p - p * (k1 + k2) + k1 * k2) by (nonlinear_arith);
    assert(p * (p + k) == p * p + p * (k1 + k2) + p) by (nonlinear_arith)
        requires
            k == k1 + k2 + 1,
    ;
    assert(p * (p - k) == p * p - p * (k1 + k2) - p) by (nonlinear_arith)
        requires
            k == k1 + k2 + 1,
    ;
    assert((p + k) * (p - k2) == p * p + p * k1 + p - k * k2) by (nonlinear_arith)
        requires
            k == k1 + k2 + 1,
    ;
    assert((p + k1) * p == p * p + p * k1) by (nonlinear_arith);
    assert((p - k) * (p + k2) == p * p - p * k1 - p - k * k2) by (nonlinear_arith)
        requires
            k == k1 + k2 + 1,
    ;
    assert((p - k1) * p == p * p - p * k1) by (nonlinear_arith);
}

/// A quotient of two numbers that are near.
pub proof fn lemma_near_quotient(x: int, y: int, a: int, b: int, c: int, e: int, k1: int, k2: int)
    requires
        near(x, 1, a, b, k1),
        near(y, 1, c, e, k2),
        0 <= k1 <= 100,
        0 <= k2 <= 100,
        x >= 0,
        y > 0,
        a >= 0,
        b > 0,
        c > 0,
        e > 0,
    ensures
        near(x, y, a * e, b * c, k1 + k2 + 1),
{
    let p = precision();
    let k = k1 + k2 + 1;
    lemma_factors(p, k1, k2);
    let xb = x * b;
    let ye = y * e;
    assert(a * 1 == a && c * 1 == c);
    let ac = a * c;
    assert(ac >= 0) by (nonlinear_arith)
        requires
            a >= 0,
            c > 0,
            ac == a * c,
    ;
    // x b p is about p a, and y e p is about p c.
    assert(xb * c * p <= (p + k1) * ac && xb * c * p >= (p - k1) * ac) by (nonlinear_arith)
        requires
            xb * p <= (p + k1) * a,
            xb * p >= (p - k1) * a,
            ac == a * c,
            c > 0,
    ;
    let ay = a * ye;
    assert(ay * p <= (p + k2) * ac && ay * p >= (p - k2) * ac) by (nonlinear_arith)
        requires
            ye * p <= (p + k2) * c,
            ye * p >= (p - k2) * c,
            ay == a * ye,
            ac == a * c,
            a >= 0,
    ;
    let left = xb * c;
    assert((p + k) * (ay * p) >= (p + k) * ((p - k2) * ac)) by (nonlinear_arith)
        requires
            ay * p >= (p - k2) * ac,
            p + k > 0,
    ;
    assert((p - k) * (ay * p) <= (p - k) * ((p + k2) * ac)) by (nonlinear_arith)
        requires
            ay * p <= (p + k2) * ac,
            p - k > 0,
    ;
    let up = (p + k) * (p - k2);
    let down = (p - k) * (p + k2);
    assert((p + k) * ((p - k2) * ac) == up * ac) by (nonlinear_arith)
        requires
            up == (p + k) * (p - k2),
    ;
    assert((p - k) * ((p + k2) * ac) == down * ac) by (nonlinear_arith)
        requires
            down == (p - k) * (p + k2),
    ;
    assert(up * ac >= (p + k1) * p * ac && down * ac <= (p - k1) * p * ac) by (nonlinear_arith)
        requires
            up >= (p + k1) * p,
            down <= (p - k1) * p,
            ac >= 0,
    ;
    assert((p + k1) * p * ac == p * ((p + k1) * ac)) by (nonlinear_arith);
    assert((p - k1) * p * ac == p * ((p - k1) * ac)) by (nonlinear_arith);
    assert(p * (left * p) <= (p + k) * (ay * p)) by (nonlinear_arith)
        requires
            left * p <= (p + k1) * ac,
            p * ((p + k1) * ac) <= (p + k) * (ay * p),
            p > 0,
    ;
    assert(p * (left * p) >= (p - k) * (ay * p)) by (nonlinear_arith)
        requires
            left * p >= (p - k1) * ac,
            p * ((p - k1) * ac) >= (p - k) * (ay * p),
            p > 0,
    ;
    assert(left * p <= (p + k) * ay) by (nonlinear_arith)
        requires
            p * (left * p) <= (p + k) * (ay * p),
            p > 0,
    ;
    assert(left * p >= (p - k) * ay) by (nonlinear_arith)
        requires
            p * (left * p) >= (p - k) * (ay * p),
            p > 0,
    ;
    assert(x * (b * c) == left) by (nonlinear_arith)
        requires
            left == x * b * c,
    ;
    assert(a * e * y == ay) by (nonlinear_arith)
        requires
            ay == a * (y * e),
    ;
}

/// A common factor does not matter.
pub proof fn lemma_near_scaled(n: int, d: int, num: int, den: int, k: int, s: int, t: int)
    requires
        s > 0,
        t > 0,
        near(n * s, d * s, num * t, den * t, k),
    ensures
        near(n, d, num, den, k),
{
    let p = precision();
    let x = n * den;
    let y = num * d;
    let f = s * t;
    assert(f > 0) by (nonlinear_arith)
        requires
            s > 0,
            t > 0,
            f == s * t,
    ;
    assert((n * s) * (den * t) == x * f) by (nonlinear_arith)
        requires
            x == n * den,
            f == s * t,
    ;
    assert((num * t) * (d * s) == y * f) by (nonlinear_arith)
        requires
            y == num * d,
            f == s * t,
    ;
    assert(x * p <= (p + k) * y) by (nonlinear_arith)
        requires
            (x * f) * p <= (p + k) * (y * f),
            f > 0,
    ;
    assert(x * p >= (p - k) * y) by (nonlinear_arith)
        requires
            (x * f) * p >= (p - k) * (y * f),
            f > 0,
    ;
}

/// Two to the power 64.
pub open spec fn wide() -> int {
    0x1_0000_0000_0000_0000
}

/// The unit is large, but not huge.
pub proof fn lemma_unit_is_large()
    ensures
        wide() * wide() * wide() * wide() * EXPONENT_STEP < unit(),
        unit() * wide() * wide() * wide() < huge(),
{
    lemma2_to64();
    lemma2_to64_rest();
    lemma_pow2_adds(64, 64);
    lemma_pow2_adds(128, 64);
    lemma_pow2_adds(192, 64);
    lemma_pow2_adds(256, 52);
    lemma_pow2_strictly_increases(308, 1074);
    lemma_pow2_adds(1074, 64);
    lemma_pow2_adds(1138, 64);
    lemma_pow2_adds(1202, 64);
    lemma_pow2_strictly_increases(1266, 1274);
}

/// Multiples of what is near are near.
pub proof fn lemma_near_multiplied(n: int, d: int, num: int, den: int, k: int, m: int, q: int)
    requires
        near(n, d, num, den, k),
        m > 0,
        q > 0,
    ensures
        near(n * m * q, d * q, num * m, den, k),
{
    let p = precision();
    let x = n * den;
    let y = num * d;
    let f = m * q;
    assert(f > 0) by (nonlinear_arith)
        requires
            m > 0,
            q > 0,
            f == m * q,
    ;
    assert(n * m * q * den == x * f) by (nonlinear_arith)
        requires
            x == n * den,
            f == m * q,
    ;
    assert((num * m) * (d * q) == y * f) by (nonlinear_arith)
        requires
            y == num * d,
            f == m * q,
    ;
    assert((x * f) * p <= (p + k) * (y * f)) by (nonlinear_arith)
        requires
            x * p <= (p + k) * y,
            f > 0,
    ;
    assert((x * f) * p >= (p - k) * (y * f)) by (nonlinear_arith)
        requires
            x * p >= (p - k) * y,
            f > 0,
    ;
}

/// What a double with a given sign and a given pattern stands for.
pub proof fn lemma_joined_value(negative: bool, p: int)
    requires
        0 <= p < INFINITY_BITS,
    ensures
        joined(negative, p).finite(),
        joined(negative, p).value() == if negative {
            -magnitude(p)
        } else {
            magnitude(p)
        },
        magnitude(p) >= 0,
        p > 0 ==> magnitude(p) > 0,
{
    if p > 0 {
        lemma_magnitude_increases(0, p);
    }
}

/// A product that is neither tiny nor huge.
pub proof fn lemma_product_near(x: Float64, y: Float64)
    requires
        x.finite(),
        y.finite(),
        EXPONENT_STEP * unit() <= size(x.value()) * size(y.value()) <= huge() * unit(),
    ensures
        x.times(y).finite(),
        EXPONENT_STEP <= size(x.times(y).value()) <= huge(),
        near(size(x.times(y).value()), 1, size(x.value()) * size(y.value()), unit(), 1),
        x.times(y).value() < 0 <==> (x.value() < 0) != (y.value() < 0),
{
    lemma_pow2_pos(1074);
    lemma_value_order(x, y);
    let n = size(x.value()) * size(y.value());
    lemma_rounding_is_near(n, unit());
    let p = rounded(n, unit());
    lemma_joined_value(x.negative() != y.negative(), p);
    assert(x.value() != 0 && y.value() != 0) by {
        let a = size(x.value());
        let b = size(y.value());
        assert(EXPONENT_STEP * unit() > 0) by (nonlinear_arith)
            requires
                unit() > 0,
        ;
        assert(a != 0 && b != 0) by (nonlinear_arith)
            requires
                a * b > 0,
        ;
    }
    assert(x.negative() == (x.value() < 0));
    assert(y.negative() == (y.value() < 0));
}

/// A quotient that is neither tiny nor huge.
pub proof fn lemma_quotient_near(x: Float64, y: Float64)
    requires
        x.finite(),
        y.finite(),
        y.value() != 0,
        EXPONENT_STEP * size(y.value()) <= size(x.value()) * unit() <= huge() * size(y.value()),
    ensures
        x.divided_by(y).finite(),
        EXPONENT_STEP <= size(x.divided_by(y).value()) <= huge(),
        near(size(x.divided_by(y).value()), 1, size(x.value()) * unit(), size(y.value()), 1),
        x.divided_by(y).value() < 0 <==> (x.value() < 0) != (y.value() < 0),
{
    lemma_pow2_pos(1074);
    lemma_value_order(x, y);
    let a = size(x.value());
    let b = size(y.value());
    let n = a * unit();
    lemma_rounding_is_near(n, b);
    let p = rounded(n, b);
    lemma_joined_value(x.negative() != y.negative(), p);
    assert(x.value() != 0) by {
        assert(a != 0) by (nonlinear_arith)
            requires
                EXPONENT_STEP * b <= a * unit(),
                b > 0,
        ;
    }
    assert(x.negative() == (x.value() < 0));
    assert(y.negative() == (y.value() < 0));
}

/// A small number of the smallest doubles is a double.
proof fn lemma_small_is_exact(n: int)
    requires
        0 <= n < EXPONENT_STEP,
    ensures
        rounded(n, 1) == n,
        magnitude(n) == n,
{
    assert(magnitude(n) * 1 == n);
    lemma_exact_is_nearest(n, 1, n);
}

/// A sum has the sign of the exact sum, and is near to it.
pub proof fn law_sums_are_near(x: Float64, y: Float64)
    requires
        x.finite(),
        y.finite(),
        size(x.value() + y.value()) <= huge(),
    ensures
        x.plus(y).finite(),
        x.plus(y).value() < 0 <==> x.value() + y.value() < 0,
        x.plus(y).value() == 0 <==> x.value() + y.value() == 0,
        near(size(x.plus(y).value()), 1, size(x.value() + y.value()), 1, 1),
{
    let exact = x.value() + y.value();
    let n = size(exact);
    let sum = x.plus(y);
    if exact == 0 {
        lemma_joined_value(x.negative() && y.negative(), 0);
        assert(magnitude(0) == 0);
    } else {
        if n < EXPONENT_STEP {
            lemma_small_is_exact(n);
            let p = precision();
            assert((p - 1) * (n * 1) <= (n * 1) * p <= (p + 1) * (n * 1)) by (nonlinear_arith)
                requires
                    n >= 0,
            ;
        } else {
            lemma_rounding_is_near(n, 1);
        }
        lemma_joined_value(exact < 0, rounded(n, 1));
    }
}

/// A difference has the sign of the exact difference, and is near to it.
pub proof fn law_differences_are_near(x: Float64, y: Float64)
    requires
        x.finite(),
        y.finite(),
        size(x.value() - y.value()) <= huge(),
    ensures
        x.minus(y).finite(),
        x.minus(y).value() < 0 <==> x.value() < y.value(),
        x.minus(y).value() == 0 <==> x.value() == y.value(),
        near(size(x.minus(y).value()), 1, size(x.value() - y.value()), 1, 1),
{
    lemma_joined_value(!y.negative(), y.pattern());
    law_sums_are_near(x, y.negated());
}

/// A length of time in seconds is near to what it is in nanoseconds.
pub proof fn law_seconds_are_near(nanos: int)
    requires
        0 < nanos <= LONGEST_SPAN,
    ensures
        seconds_of(nanos).finite(),
        EXPONENT_STEP <= seconds_of(nanos).value() <= huge(),
        near(seconds_of(nanos).value(), 1, nanos * unit(), 1_000_000_000, 3),
{
    let u = unit();
    let g = 1_000_000_000int;
    let w = nanos / g;
    let r = nanos % g;
    let p = precision();
    lemma_unit_is_large();
    lemma_pow2_pos(1074);
    let whole = Float64::of_integer(w);
    let billion = Float64::of_integer(g);
    let parts = Float64::of_integer(r);
    let part = parts.divided_by(billion);
    law_whole_numbers_are_exact(g);
    law_whole_numbers_are_exact(r);
    // The whole seconds.
    if w > 0 {
        assert(EXPONENT_STEP * 1 <= w * u <= huge() * 1) by (nonlinear_arith)
            requires
                1 <= w <= wide(),
                EXPONENT_STEP <= u,
                u * wide() <= huge(),
        ;
        lemma_rounding_is_near(w * u, 1);
        lemma_joined_value(false, rounded(w * u, 1));
    } else {
        law_whole_numbers_are_exact(0);
        assert(0 * u == 0);
    }
    let vw = whole.value();
    assert((p - 1) * (w * u) <= vw * p <= (p + 1) * (w * u)) by {
        assert(w * u * 1 == w * u);
        if w == 0 {
            assert(0 * u == 0);
        }
    }
    // What is beyond them.
    assert(size(billion.value()) == g * u) by (nonlinear_arith)
        requires
            billion.value() == g * u,
            g > 0,
            u > 0,
    ;
    if r > 0 {
        assert(size(parts.value()) == r * u) by (nonlinear_arith)
            requires
                parts.value() == r * u,
                r > 0,
                u > 0,
        ;
        assert(EXPONENT_STEP * (g * u) <= (r * u) * u <= huge() * (g * u)) by (nonlinear_arith)
            requires
                1 <= r < g,
                g == 1_000_000_000,
                wide() * EXPONENT_STEP <= u,
                u <= huge(),
        ;
        assert(billion.value() != 0);
        lemma_quotient_near(parts, billion);
        let v = part.value();
        assert(near(v, 1, (r * u) * u, g * u, 1));
        assert(v * 1 == v);
        assert(1int * 1 == 1);
        lemma_near_scaled(v, 1, r * u, g, 1, 1, u);
    } else {
        assert(0 * u == 0);
        lemma_nearest_to_zero(g * u);
        lemma_rounded_is(0, g * u, 0);
        lemma_joined_value(false, 0);
        lemma_value_order(billion, billion);
        assert(parts == joined(false, 0)) by {
            lemma_nearest_to_zero(1);
            lemma_rounded_is(0, 1, 0);
        }
    }
    let vr = part.value();
    assert((p - 1) * (r * u) <= (vr * g) * p <= (p + 1) * (r * u)) by {
        assert(r * u * 1 == r * u);
        if r == 0 {
            assert(magnitude(0) == 0);
        }
    }
    // Together.
    let exact = vw + vr;
    let n = nanos * u;
    assert(n == g * (w * u) + r * u) by (nonlinear_arith)
        requires
            nanos == g * w + r,
            n == nanos * u,
    ;
    assert(exact * g * p == g * (vw * p) + vr * g * p) by (nonlinear_arith)
        requires
            exact == vw + vr,
    ;
    assert((p + 1) * n == g * ((p + 1) * (w * u)) + (p + 1) * (r * u)) by (nonlinear_arith)
        requires
            n == g * (w * u) + r * u,
    ;
    assert((p - 1) * n == g * ((p - 1) * (w * u)) + (p - 1) * (r * u)) by (nonlinear_arith)
        requires
            n == g * (w * u) + r * u,
    ;
    assert(near(exact, 1, n, g, 1)) by {
        assert(n * 1 == n);
    }
    assert(n >= u) by (nonlinear_arith)
        requires
            n == nanos * u,
            nanos >= 1,
            u > 0,
    ;
    assert(exact >= EXPONENT_STEP) by (nonlinear_arith)
        requires
            (p - 1) * n <= exact * g * p,
            n >= u,
            u >= wide() * EXPONENT_STEP,
            p == 0x20_0000_0000_0000,
            g == 1_000_000_000,
    {
        assert((p - 1) * u <= (p - 1) * n);
        assert(exact * (g * p) >= (p - 1) * u);
    }
    assert(exact <= huge()) by (nonlinear_arith)
        requires
            exact * g * p <= (p + 1) * n,
            n == nanos * u,
            0 < nanos <= wide() * wide(),
            u * wide() * wide() * wide() <= huge(),
            p == 0x20_0000_0000_0000,
            g == 1_000_000_000,
            exact >= 0,
            u > 0,
    {
        assert(n <= u * wide() * wide());
    }
    law_sums_are_near(whole, part);
    assert(size(exact) == exact);
    let sum = seconds_of(nanos).value();
    assert(seconds_of(nanos) == whole.plus(part));
    assert(size(sum) == sum);
    lemma_near_chain(sum, exact, 1, n, g, 1, 1);
    lemma_rounding_is_near(exact, 1);
    lemma_joined_value(false, rounded(exact, 1));
}

} // verus!
