//! Sums, products and quotients of doubles.
//!
//! IEEE 754 defines each of them as the exact result, rounded to the nearest double, with
//! ties going to the even one. That sentence is the contract of this module.
use crate::clock::LONGEST_SPAN;
use crate::float64::{
    lemma_magnitude_increases, lemma_magnitude_split, magnitude, unit, Float64, EXPONENT_STEP,
    INFINITY_BITS, SIGN_BIT,
};
use vstd::arithmetic::power2::{
    lemma2_to64, lemma2_to64_rest, lemma_pow2_adds, lemma_pow2_pos, lemma_pow2_strictly_increases,
    pow2,
};
use vstd::prelude::*;

verus! {

/// Whether `pattern` is the double nearest to `n / d`, ties going to the even pattern. What
/// is too large for a finite double is nearest to infinity.
pub open spec fn nearest_to(n: int, d: int, pattern: int) -> bool {
    &&& 0 <= pattern <= INFINITY_BITS
    &&& pattern > 0 ==> {
        let twice_midpoint = magnitude(pattern - 1) + magnitude(pattern);
        if pattern % 2 == 0 {
            twice_midpoint * d <= 2 * n
        } else {
            twice_midpoint * d < 2 * n
        }
    }
    &&& pattern < INFINITY_BITS ==> {
        let twice_midpoint = magnitude(pattern) + magnitude(pattern + 1);
        if pattern % 2 == 0 {
            2 * n <= twice_midpoint * d
        } else {
            2 * n < twice_midpoint * d
        }
    }
}

/// The pattern of the double nearest to `n / d`.
pub open spec fn rounded(n: int, d: int) -> int {
    choose|pattern: int| nearest_to(n, d, pattern)
}

/// There is only one nearest double.
pub proof fn lemma_nearest_unique(n: int, d: int, p: int, q: int)
    requires
        d > 0,
        nearest_to(n, d, p),
        nearest_to(n, d, q),
    ensures
        p == q,
{
    lemma_nearest_ordered(n, d, p, q);
    lemma_nearest_ordered(n, d, q, p);
}

/// No nearest double stands before another.
proof fn lemma_nearest_ordered(n: int, d: int, p: int, q: int)
    requires
        d > 0,
        nearest_to(n, d, p),
        nearest_to(n, d, q),
    ensures
        p >= q,
{
    if p < q {
        let below = magnitude(p) + magnitude(p + 1);
        let above = magnitude(q - 1) + magnitude(q);
        if p + 1 == q {
            assert(below == above);
            assert(p % 2 == 0 || q % 2 == 0);
            assert(p % 2 != 0 || q % 2 != 0);
        } else {
            lemma_magnitude_increases(p, q - 1);
            lemma_magnitude_increases(p + 1, q);
            assert(below * d < above * d) by (nonlinear_arith)
                requires
                    below < above,
                    d > 0,
            ;
        }
    }
}

/// `rounded` is what is nearest.
pub proof fn lemma_rounded_is(n: int, d: int, pattern: int)
    requires
        d > 0,
        nearest_to(n, d, pattern),
    ensures
        rounded(n, d) == pattern,
{
    let q = rounded(n, d);
    assert(nearest_to(n, d, q));
    lemma_nearest_unique(n, d, pattern, q);
}

/// The pattern that stands for `k` steps of size two to the power `e`.
proof fn lemma_steps(e: int, k: int)
    requires
        0 <= e,
        e > 0 ==> EXPONENT_STEP <= k,
        0 <= k <= 2 * EXPONENT_STEP,
    ensures
        magnitude(e * EXPONENT_STEP + k) == k * pow2(e as nat),
{
    let step = EXPONENT_STEP as int;
    if e == 0 {
        lemma2_to64();
        let one = pow2(0) as int;
        assert(k * one == k) by (nonlinear_arith)
            requires
                one == 1,
        ;
        if k >= step {
            lemma_magnitude_split(1, k - step);
        }
    } else {
        assert(e * step + k == (e + 1) * step + (k - step)) by (nonlinear_arith);
        lemma_magnitude_split(e + 1, k - step);
    }
}

/// Rounding, once it is known between which steps `n / d` lies, and on which side of their
/// midpoint (`side` is negative below it, positive above, and 0 on it).
proof fn lemma_round_step(n: int, d: int, e: int, k: int, side: int, up: bool)
    requires
        d > 0,
        0 <= e,
        e > 0 ==> EXPONENT_STEP <= k,
        0 <= k < 2 * EXPONENT_STEP,
        k * pow2(e as nat) * d <= n < (k + 1) * pow2(e as nat) * d,
        side < 0 <==> 2 * n < (2 * k + 1) * pow2(e as nat) * d,
        side > 0 <==> 2 * n > (2 * k + 1) * pow2(e as nat) * d,
        up == (side > 0 || (side == 0 && k % 2 == 1)),
    ensures
        ({
            let pattern = e * EXPONENT_STEP + k + if up {
                1int
            } else {
                0int
            };
            nearest_to(
                n,
                d,
                if pattern > INFINITY_BITS {
                    INFINITY_BITS as int
                } else {
                    pattern
                },
            )
        }),
{
    let step = EXPONENT_STEP as int;
    let p = pow2(e as nat) as int;
    lemma_pow2_pos(e as nat);
    let base = e * step + k;
    assert(base >= 0) by (nonlinear_arith)
        requires
            e >= 0,
            k >= 0,
            step > 0,
            base == e * step + k,
    ;
    assert(base % 2 == k % 2) by {
        assert(step == 2 * 0x0008_0000_0000_0000);
        assert(e * step == 2 * (e * 0x0008_0000_0000_0000)) by (nonlinear_arith)
            requires
                step == 2 * 0x0008_0000_0000_0000,
        ;
    }
    lemma_steps(e, k);
    lemma_steps(e, k + 1);
    let here = magnitude(base);
    let there = magnitude(base + 1);
    assert(here == k * p);
    assert(there == (k + 1) * p);
    assert((here + there) * d == (2 * k + 1) * p * d) by (nonlinear_arith)
        requires
            here == k * p,
            there == (k + 1) * p,
    ;
    assert(here * d == k * p * d);
    assert(there * d == (k + 1) * p * d);
    let pattern = base + if up {
        1int
    } else {
        0int
    };
    if pattern >= INFINITY_BITS {
        // Infinity is at or below what would have been the pattern.
        let inf = INFINITY_BITS as int;
        lemma_magnitude_increases(inf - 1, inf);
        if base >= inf {
            if base > inf {
                lemma_magnitude_increases(inf, base);
            }
            let twice = magnitude(inf - 1) + magnitude(inf);
            assert(twice * d <= 2 * (here * d)) by (nonlinear_arith)
                requires
                    twice <= 2 * here,
                    d > 0,
            ;
            assert(inf % 2 == 0);
        } else {
            assert(base + 1 == inf);
            assert(inf % 2 == 0);
        }
    } else if up {
        // The midpoint below is passed; the one above is not reached.
        lemma_magnitude_increases(base + 1, base + 2);
        let twice = there + magnitude(base + 2);
        assert(2 * (there * d) < twice * d) by (nonlinear_arith)
            requires
                2 * there < twice,
                d > 0,
        ;
        assert((base + 1) % 2 == 0 || side > 0);
    } else {
        if base > 0 {
            lemma_magnitude_increases(base - 1, base);
            let twice = magnitude(base - 1) + here;
            assert(twice * d < 2 * (here * d)) by (nonlinear_arith)
                requires
                    twice < 2 * here,
                    d > 0,
            ;
        }
    }
}

/// How many bits `m` takes.
fn bit_length(m: u128) -> (r: u32)
    ensures
        r <= 128,
        m < pow2(r as nat),
        m > 0 ==> r >= 1 && pow2((r - 1) as nat) <= m,
        m == 0 ==> r == 0,
{
    let mut rest: u128 = m;
    let mut r: u32 = 0;
    proof {
        lemma2_to64();
    }
    while rest > 0
        invariant
            r <= 128,
            rest * pow2(r as nat) <= m < (rest + 1) * pow2(r as nat),
            rest == 0 && m > 0 ==> r >= 1 && pow2((r - 1) as nat) <= m,
            m == 0 ==> r == 0 && rest == 0,
        decreases rest,
    {
        let ghost p = pow2(r as nat) as int;
        let ghost half = rest / 2;
        proof {
            lemma_pow2_pos(r as nat);
            lemma_pow2_adds(r as nat, 1);
            lemma2_to64();
            assert(p <= m) by (nonlinear_arith)
                requires
                    rest * p <= m,
                    rest >= 1,
                    p > 0,
            ;
            if r >= 128 {
                lemma_two_to_128();
                if r > 128 {
                    lemma_pow2_strictly_increases(128, r as nat);
                }
            }
            assert(half * (p * 2) <= rest * p) by (nonlinear_arith)
                requires
                    2 * half <= rest,
                    p > 0,
            ;
            assert((rest + 1) * p <= (half + 1) * (p * 2)) by (nonlinear_arith)
                requires
                    rest <= 2 * half + 1,
                    p > 0,
            ;
        }
        rest = rest / 2;
        r = r + 1;
    }
    assert((0 + 1) * pow2(r as nat) == pow2(r as nat)) by (nonlinear_arith);
    r
}

proof fn lemma_two_to_128()
    ensures
        pow2(128) == u128::MAX + 1,
{
    lemma_pow2_adds(64, 64);
    lemma2_to64();
    lemma2_to64_rest();
}

/// Two to the power `e`.
fn wide_power_of_two(e: u32) -> (r: u128)
    requires
        e <= 127,
    ensures
        r == pow2(e as nat),
        r > 0,
{
    let mut r: u128 = 1;
    let mut i: u32 = 0;
    proof {
        lemma2_to64();
    }
    while i < e
        invariant
            i <= e <= 127,
            r == pow2(i as nat),
        decreases e - i,
    {
        proof {
            lemma_pow2_adds(i as nat, 1);
            lemma2_to64();
            lemma_two_to_128();
            lemma_pow2_strictly_increases((i + 1) as nat, 128);
        }
        r = r * 2;
        i = i + 1;
    }
    proof {
        lemma_pow2_pos(e as nat);
    }
    r
}

/// Whether `n / d` is `mantissa`, times two to the power `b`, divided by two to the power `a`;
/// or, where `sticky`, lies between that and the same with the next mantissa.
spec fn scaled(n: int, d: int, mantissa: int, b: nat, a: nat, sticky: bool) -> bool {
    if sticky {
        mantissa * (pow2(b) * d) < n * pow2(a) < (mantissa + 1) * (pow2(b) * d)
    } else {
        mantissa * (pow2(b) * d) == n * pow2(a)
    }
}

/// Cutting `s` bits off a mantissa: between which steps the number then lies.
proof fn lemma_cut(
    n: int,
    d: int,
    mantissa: int,
    b: nat,
    a: nat,
    sticky: bool,
    e: nat,
    s: nat,
    k: int,
    r: int,
)
    requires
        d > 0,
        s > 0,
        scaled(n, d, mantissa, b, a, sticky),
        e + a == s + b,
        mantissa == k * pow2(s) + r,
        0 <= r < pow2(s),
    ensures
        k * pow2(e) * d <= n < (k + 1) * pow2(e) * d,
        2 * r > pow2(s) || (2 * r == pow2(s) && sticky) ==> 2 * n > (2 * k + 1) * pow2(e) * d,
        2 * r == pow2(s) && !sticky ==> 2 * n == (2 * k + 1) * pow2(e) * d,
        2 * r < pow2(s) ==> 2 * n < (2 * k + 1) * pow2(e) * d,
{
    let pa = pow2(a) as int;
    let pb = pow2(b) as int;
    let ps = pow2(s) as int;
    let pe = pow2(e) as int;
    lemma_pow2_pos(a);
    lemma_pow2_pos(b);
    lemma_pow2_pos(s);
    lemma_pow2_pos(e);
    lemma_pow2_adds(e, a);
    lemma_pow2_adds(s, b);
    let u = pb * d;
    assert(u > 0) by (nonlinear_arith)
        requires
            u == pb * d,
            pb > 0,
            d > 0,
    ;
    lemma_rescale(k, pe, pa, ps, pb, d);
    lemma_rescale(k + 1, pe, pa, ps, pb, d);
    lemma_rescale(2 * k + 1, pe, pa, ps, pb, d);
    assert(mantissa * u <= n * pa < (mantissa + 1) * u) by (nonlinear_arith)
        requires
            u > 0,
            mantissa * u <= n * pa,
            n * pa == mantissa * u || n * pa < (mantissa + 1) * u,
    ;
    // The bracket.
    assert((k * ps) * u <= mantissa * u) by (nonlinear_arith)
        requires
            k * ps <= mantissa,
            u > 0,
    ;
    assert((k + 1) * ps == k * ps + ps) by (nonlinear_arith);
    assert((mantissa + 1) * u <= ((k + 1) * ps) * u) by (nonlinear_arith)
        requires
            mantissa + 1 <= (k + 1) * ps,
            u > 0,
    ;
    lemma_cancel_factor(k * pe * d, n, pa);
    lemma_cancel_factor(n, (k + 1) * pe * d, pa);
    // The midpoint.
    let middle = (2 * k + 1) * ps;
    assert(middle == 2 * (k * ps) + ps) by (nonlinear_arith)
        requires
            middle == (2 * k + 1) * ps,
    ;
    assert(2 * mantissa == middle + (2 * r - ps));
    assert((2 * n) * pa == 2 * (n * pa)) by (nonlinear_arith);
    assert(2 * (mantissa * u) == (2 * mantissa) * u) by (nonlinear_arith);
    assert(2 * ((mantissa + 1) * u) == (2 * mantissa + 2) * u) by (nonlinear_arith);
    if 2 * r > ps {
        assert(middle * u < (2 * mantissa) * u) by (nonlinear_arith)
            requires
                middle < 2 * mantissa,
                u > 0,
        ;
        lemma_cancel_factor((2 * k + 1) * pe * d, 2 * n, pa);
    } else if 2 * r == ps {
        lemma_cancel_factor((2 * k + 1) * pe * d, 2 * n, pa);
    } else {
        assert(ps % 2 == 0) by {
            lemma_pow2_adds((s - 1) as nat, 1);
            lemma2_to64();
        }
        assert((2 * mantissa + 2) * u <= middle * u) by (nonlinear_arith)
            requires
                2 * mantissa + 2 <= middle,
                u > 0,
        ;
        lemma_cancel_factor(2 * n, (2 * k + 1) * pe * d, pa);
    }
}

/// The same number, over two scales.
proof fn lemma_rescale(x: int, pe: int, pa: int, ps: int, pb: int, d: int)
    requires
        pe * pa == ps * pb,
    ensures
        (x * pe * d) * pa == (x * ps) * (pb * d),
{
    assert((x * pe * d) * pa == (x * d) * (pe * pa)) by (nonlinear_arith);
    assert((x * ps) * (pb * d) == (x * d) * (ps * pb)) by (nonlinear_arith);
}

/// A positive factor does not change the order.
proof fn lemma_cancel_factor(x: int, y: int, c: int)
    requires
        c > 0,
    ensures
        x * c < y * c ==> x < y,
        x * c <= y * c ==> x <= y,
        x * c == y * c ==> x == y,
{
    if x >= y {
        assert(x * c >= y * c) by (nonlinear_arith)
            requires
                x >= y,
                c > 0,
        ;
    }
    if x > y {
        assert(x * c > y * c) by (nonlinear_arith)
            requires
                x > y,
                c > 0,
        ;
    }
    if x < y {
        assert(x * c < y * c) by (nonlinear_arith)
            requires
                x < y,
                c > 0,
        ;
    }
}

/// Adding `z` zero bits to a mantissa: the number is then a step itself.
proof fn lemma_fill(n: int, d: int, mantissa: int, b: nat, a: nat, e: nat, z: nat)
    requires
        d > 0,
        scaled(n, d, mantissa, b, a, false),
        e + a + z == b,
    ensures
        (mantissa * pow2(z)) * pow2(e) * d == n,
{
    let pa = pow2(a) as int;
    let pb = pow2(b) as int;
    let pz = pow2(z) as int;
    let pe = pow2(e) as int;
    lemma_pow2_pos(a);
    lemma_pow2_adds(e, a);
    lemma_pow2_adds(e + a, z);
    let k = mantissa * pz;
    assert((k * pe * d) * pa == mantissa * ((pe * pa * pz) * d)) by (nonlinear_arith)
        requires
            k == mantissa * pz,
    ;
    lemma_cancel_factor(k * pe * d, n, pa);
}

/// The pattern of the double nearest to `n / d`, given as a mantissa and two scales.
fn round_scaled(
    mantissa: u128,
    b: u32,
    a: u32,
    sticky: bool,
    Ghost(n): Ghost<int>,
    Ghost(d): Ghost<int>,
) -> (r: u64)
    requires
        d > 0,
        0 < mantissa <= 0x8000_0000_0000_0000_0000_0000_0000_0000,
        scaled(n, d, mantissa as int, b as nat, a as nat, sticky),
        sticky ==> 0x40_0000_0000_0000 <= mantissa < 0x8000_0000_0000_0000_0000_0000_0000_0000,
        a <= 10000,
        b <= 10000,
    ensures
        nearest_to(n, d, r as int),
        r == rounded(n, d),
{
    let l: i64 = bit_length(mantissa) as i64;
    let t: i64 = l - 53 + b as i64 - a as i64;
    let e: i64 = if t > 0 {
        t
    } else {
        0
    };
    let s: i64 = e + a as i64 - b as i64;
    proof {
        lemma2_to64();
        lemma2_to64_rest();
        lemma_two_to_128();
        if sticky && l < 54 {
            lemma_pow2_strictly_increases(l as nat, 54);
        }
    }
    let mut k: u64 = 0;
    let mut up: bool = false;
    let ghost mut side: int = -1;
    if s >= 128 {
        // All bits are cut off.
        proof {
            lemma_pow2_adds(127, 1);
            if s > 128 {
                lemma_pow2_strictly_increases(128, s as nat);
            }
            assert(0 * pow2(s as nat) == 0) by (nonlinear_arith);
            lemma_cut(
                n,
                d,
                mantissa as int,
                b as nat,
                a as nat,
                sticky,
                e as nat,
                s as nat,
                0,
                mantissa as int,
            );
            if 2 * mantissa == pow2(s as nat) {
                side = 0;
            }
            assert(e == 0);
        }
    } else if s > 0 {
        let p: u128 = wide_power_of_two(s as u32);
        let rest: u128 = mantissa % p;
        let half: u128 = p / 2;
        let quotient: u128 = mantissa / p;
        proof {
            vstd::arithmetic::div_mod::lemma_fundamental_div_mod(mantissa as int, p as int);
            let q = quotient as int;
            assert(p * q == q * p) by (nonlinear_arith);
            assert(p * (q + 1) == p * q + p) by (nonlinear_arith);
            lemma_cut(
                n,
                d,
                mantissa as int,
                b as nat,
                a as nat,
                sticky,
                e as nat,
                s as nat,
                q,
                rest as int,
            );
            lemma_pow2_adds((s - 1) as nat, 1);
            assert(p == 2 * half);
            lemma_quotient_range(mantissa as int, l as nat, s, e > 0, q, p as int);
        }
        k = quotient as u64;
        up = rest > half || (rest == half && (sticky || k % 2 == 1));
        proof {
            side = if rest > half || (rest == half && sticky) {
                1
            } else if rest == half {
                0
            } else {
                -1
            };
        }
    } else {
        let p: u128 = wide_power_of_two((-s) as u32);
        proof {
            lemma_fill(n, d, mantissa as int, b as nat, a as nat, e as nat, (-s) as nat);
            lemma_product_range(mantissa as int, l as nat, (-s) as nat, e > 0, p as int);
            let q = mantissa * p;
            let pe = pow2(e as nat) as int;
            lemma_pow2_pos(e as nat);
            assert((q + 1) * pe * d == q * pe * d + pe * d) by (nonlinear_arith);
            assert((2 * q + 1) * pe * d == 2 * (q * pe * d) + pe * d) by (nonlinear_arith);
            assert(pe * d > 0) by (nonlinear_arith)
                requires
                    pe > 0,
                    d > 0,
            ;
        }
        k = (mantissa * p) as u64;
    }
    proof {
        lemma_round_step(n, d, e as int, k as int, side, up);
    }
    let r: u64 = if e >= 2046 {
        INFINITY_BITS
    } else {
        let pattern: u64 = e as u64 * EXPONENT_STEP + k + if up {
            1
        } else {
            0
        };
        if pattern > INFINITY_BITS {
            INFINITY_BITS
        } else {
            pattern
        }
    };
    proof {
        lemma_rounded_is(n, d, r as int);
    }
    r
}

/// The quotient of cutting bits off a mantissa of `l` bits takes 53 bits, or fewer where the
/// steps are the smallest.
proof fn lemma_quotient_range(mantissa: int, l: nat, s: i64, full: bool, q: int, p: int)
    requires
        1 <= l <= 128,
        pow2((l - 1) as nat) <= mantissa < pow2(l),
        0 < s,
        full ==> s == l - 53,
        !full ==> s >= l - 53,
        p == pow2(s as nat),
        p * q <= mantissa < p * (q + 1),
        q >= 0,
    ensures
        q < 2 * EXPONENT_STEP,
        full ==> q >= EXPONENT_STEP,
{
    lemma_pow2_pos(s as nat);
    lemma2_to64_rest();
    lemma_pow2_adds(s as nat, 53);
    if l < s + 53 {
        lemma_pow2_strictly_increases(l, (s + 53) as nat);
    }
    assert(q < 2 * EXPONENT_STEP) by (nonlinear_arith)
        requires
            p * q < p * (2 * EXPONENT_STEP),
            p > 0,
    ;
    if full {
        lemma_pow2_adds(s as nat, 52);
        assert(q >= EXPONENT_STEP) by (nonlinear_arith)
            requires
                p * EXPONENT_STEP < p * (q + 1),
                p > 0,
        ;
    }
}

/// A mantissa of `l` bits with zero bits added takes 53 bits, or fewer where the steps are the
/// smallest.
proof fn lemma_product_range(mantissa: int, l: nat, z: nat, full: bool, p: int)
    requires
        1 <= l <= 128,
        pow2((l - 1) as nat) <= mantissa < pow2(l),
        full ==> z == 53 - l,
        !full ==> z <= 53 - l,
        p == pow2(z),
    ensures
        0 <= mantissa * p < 2 * EXPONENT_STEP,
        full ==> mantissa * p >= EXPONENT_STEP,
{
    lemma_pow2_pos(z);
    lemma2_to64_rest();
    lemma_pow2_adds(l, z);
    if l + z < 53 {
        lemma_pow2_strictly_increases(l + z, 53);
    }
    let pl = pow2(l) as int;
    assert(0 <= mantissa * p < pl * p) by (nonlinear_arith)
        requires
            0 <= mantissa < pl,
            p > 0,
    ;
    if full {
        lemma_pow2_adds((l - 1) as nat, z);
        let low = pow2((l - 1) as nat) as int;
        assert(mantissa * p >= low * p) by (nonlinear_arith)
            requires
                mantissa >= low,
                p > 0,
        ;
    }
}

/// What stands for results that are no number.
pub const NAN_BITS: u64 = 0x7FF8_0000_0000_0000;

/// The double with the given sign and the given pattern.
pub open spec fn joined(negative: bool, pattern: int) -> Float64 {
    Float64 {
        bits: (pattern + if negative {
            SIGN_BIT as int
        } else {
            0int
        }) as u64,
    }
}

/// No number.
pub open spec fn not_a_number() -> Float64 {
    Float64 { bits: NAN_BITS }
}

/// The size of `n`, whatever its sign.
pub open spec fn size(n: int) -> int {
    if n < 0 {
        -n
    } else {
        n
    }
}

impl Float64 {
    /// Whether this is one of the infinities.
    pub open spec fn infinite(self) -> bool {
        self.pattern() == INFINITY_BITS
    }

    /// This with the other sign.
    pub open spec fn negated(self) -> Float64 {
        joined(!self.negative(), self.pattern())
    }

    /// `self + other`.
    pub open spec fn plus(self, other: Float64) -> Float64 {
        if self.nan() || other.nan() {
            not_a_number()
        } else if self.infinite() {
            if other.infinite() && self.negative() != other.negative() {
                not_a_number()
            } else {
                self
            }
        } else if other.infinite() {
            other
        } else {
            let exact = self.value() + other.value();
            if exact == 0 {
                joined(self.negative() && other.negative(), 0)
            } else {
                joined(exact < 0, rounded(size(exact), 1))
            }
        }
    }

    /// `self - other`.
    pub open spec fn minus(self, other: Float64) -> Float64 {
        self.plus(other.negated())
    }

    /// `self * other`.
    pub open spec fn times(self, other: Float64) -> Float64 {
        let negative = self.negative() != other.negative();
        if self.nan() || other.nan() {
            not_a_number()
        } else if self.infinite() || other.infinite() {
            if self.pattern() == 0 || other.pattern() == 0 {
                not_a_number()
            } else {
                joined(negative, INFINITY_BITS as int)
            }
        } else {
            joined(negative, rounded(size(self.value()) * size(other.value()), unit()))
        }
    }

    /// `self / other`.
    pub open spec fn divided_by(self, other: Float64) -> Float64 {
        let negative = self.negative() != other.negative();
        if self.nan() || other.nan() {
            not_a_number()
        } else if self.infinite() {
            if other.infinite() {
                not_a_number()
            } else {
                joined(negative, INFINITY_BITS as int)
            }
        } else if other.infinite() {
            joined(negative, 0)
        } else if other.pattern() == 0 {
            if self.pattern() == 0 {
                not_a_number()
            } else {
                joined(negative, INFINITY_BITS as int)
            }
        } else {
            joined(negative, rounded(size(self.value()) * unit(), size(other.value())))
        }
    }

    /// The double nearest to the integer `n`.
    pub open spec fn of_integer(n: int) -> Float64 {
        joined(n < 0, rounded(size(n) * unit(), 1))
    }

    /// The double with the given sign and the given pattern.
    fn join(negative: bool, pattern: u64) -> (r: Float64)
        requires
            pattern < SIGN_BIT,
        ensures
            r == joined(negative, pattern as int),
    {
        if negative {
            Float64 { bits: SIGN_BIT + pattern }
        } else {
            Float64 { bits: pattern }
        }
    }

    /// A finite number without its sign, as a mantissa and a power of two.
    fn parts(self) -> (r: (u64, u32))
        requires
            self.finite(),
        ensures
            r.0 < 2 * EXPONENT_STEP,
            r.1 <= 2045,
            r.1 > 0 ==> r.0 >= EXPONENT_STEP,
            self.pattern() > 0 ==> r.0 > 0,
            self.pattern() == 0 ==> r.0 == 0,
            magnitude(self.pattern()) == r.0 * pow2(r.1 as nat),
            size(self.value()) == r.0 * pow2(r.1 as nat),
    {
        let m: u64 = self.pattern_bits();
        proof {
            lemma2_to64();
            crate::float64::lemma_value_order(self, self);
        }
        if m < EXPONENT_STEP {
            let ghost one = pow2(0) as int;
            assert(m * one == m) by (nonlinear_arith)
                requires
                    one == 1,
            ;
            (m, 0)
        } else {
            let e: u64 = m / EXPONENT_STEP;
            let fraction: u64 = m % EXPONENT_STEP;
            (EXPONENT_STEP + fraction, (e - 1) as u32)
        }
    }

    /// This with the other sign.
    pub fn negate(self) -> (r: Float64)
        ensures
            r == self.negated(),
    {
        Self::join(!self.is_negative(), self.pattern_bits())
    }

    /// `self * other`.
    pub fn multiply(self, other: Float64) -> (r: Float64)
        ensures
            r == self.times(other),
    {
        let negative: bool = self.is_negative() != other.is_negative();
        if self.is_nan() || other.is_nan() {
            return Float64 { bits: NAN_BITS };
        }
        let x: u64 = self.pattern_bits();
        let y: u64 = other.pattern_bits();
        if x == INFINITY_BITS || y == INFINITY_BITS {
            if x == 0 || y == 0 {
                return Float64 { bits: NAN_BITS };
            }
            return Self::join(negative, INFINITY_BITS);
        }
        let (mx, ex) = self.parts();
        let (my, ey) = other.parts();
        let ghost n = size(self.value()) * size(other.value());
        proof {
            lemma_pow2_pos(1074);
            let px = pow2(ex as nat) as int;
            let py = pow2(ey as nat) as int;
            assert(n == (mx * my) * (px * py)) by (nonlinear_arith)
                requires
                    n == (mx * px) * (my * py),
            ;
            lemma_pow2_adds(ex as nat, ey as nat);
            assert(mx * my <= (2 * EXPONENT_STEP) * (2 * EXPONENT_STEP)) by (nonlinear_arith)
                requires
                    0 <= mx < 2 * EXPONENT_STEP,
                    0 <= my < 2 * EXPONENT_STEP,
            ;
        }
        if x == 0 || y == 0 {
            proof {
                assert(n == 0) by (nonlinear_arith)
                    requires
                        n == size(self.value()) * size(other.value()),
                        size(self.value()) == 0 || size(other.value()) == 0,
                ;
                lemma_nearest_to_zero(unit());
            }
            return Self::join(negative, 0);
        }
        let mantissa: u128 = mx as u128 * my as u128;
        proof {
            let pe = pow2((ex + ey) as nat) as int;
            let u = unit();
            assert(mantissa > 0) by (nonlinear_arith)
                requires
                    mantissa == mx * my,
                    mx > 0,
                    my > 0,
            ;
            assert(mantissa * (pe * u) == (mantissa * pe) * u) by (nonlinear_arith);
        }
        Self::join(
            negative,
            round_scaled(mantissa, ex + ey, 1074, false, Ghost(n), Ghost(unit())),
        )
    }

    /// `self / other`.
    pub fn divide(self, other: Float64) -> (r: Float64)
        ensures
            r == self.divided_by(other),
    {
        let negative: bool = self.is_negative() != other.is_negative();
        if self.is_nan() || other.is_nan() {
            return Float64 { bits: NAN_BITS };
        }
        let x: u64 = self.pattern_bits();
        let y: u64 = other.pattern_bits();
        if x == INFINITY_BITS {
            if y == INFINITY_BITS {
                return Float64 { bits: NAN_BITS };
            }
            return Self::join(negative, INFINITY_BITS);
        }
        if y == INFINITY_BITS {
            return Self::join(negative, 0);
        }
        if y == 0 {
            if x == 0 {
                return Float64 { bits: NAN_BITS };
            }
            return Self::join(negative, INFINITY_BITS);
        }
        let (mx, ex) = self.parts();
        let (my, ey) = other.parts();
        let ghost n = size(self.value()) * unit();
        let ghost d = size(other.value());
        proof {
            lemma_pow2_pos(ey as nat);
            let py = pow2(ey as nat) as int;
            assert(d > 0) by (nonlinear_arith)
                requires
                    d == my * py,
                    my > 0,
                    py > 0,
            ;
        }
        if x == 0 {
            proof {
                assert(n == 0) by (nonlinear_arith)
                    requires
                        n == size(self.value()) * unit(),
                        size(self.value()) == 0,
                ;
                lemma_nearest_to_zero(d);
            }
            return Self::join(negative, 0);
        }
        let l: u32 = bit_length(mx as u128);
        proof {
            lemma2_to64_rest();
            if l > 53 {
                if l > 54 {
                    lemma_pow2_strictly_increases(53, (l - 1) as nat);
                }
            }
        }
        let shift: u32 = 127 - l;
        let p: u128 = wide_power_of_two(shift);
        proof {
            lemma_pow2_adds(l as nat, shift as nat);
            lemma_pow2_adds((l - 1) as nat, shift as nat);
            lemma_pow2_adds(127, 1);
            lemma_pow2_adds(126, 1);
            lemma_two_to_128();
            lemma2_to64();
            let pl = pow2(l as nat) as int;
            let low = pow2((l - 1) as nat) as int;
            assert(low * p <= mx * p < pl * p) by (nonlinear_arith)
                requires
                    low <= mx < pl,
                    p > 0,
            ;
        }
        let dividend: u128 = mx as u128 * p;
        let divisor: u128 = my as u128;
        let mantissa: u128 = dividend / divisor;
        let rest: u128 = dividend % divisor;
        proof {
            vstd::arithmetic::div_mod::lemma_fundamental_div_mod(dividend as int, divisor as int);
            let q = mantissa as int;
            let by = divisor as int;
            assert(q >= 0x40_0000_0000_0000) by (nonlinear_arith)
                requires
                    dividend == by * q + rest,
                    dividend >= 0x4000_0000_0000_0000_0000_0000_0000_0000,
                    0 <= rest < by,
                    by < 0x20_0000_0000_0000,
            ;
            assert(q <= dividend) by (nonlinear_arith)
                requires
                    dividend == by * q + rest,
                    rest >= 0,
                    by >= 1,
                    q >= 0,
            ;
            // Both sides, over the common scale.
            let px = pow2(ex as nat) as int;
            let py = pow2(ey as nat) as int;
            let u = unit();
            let pp = p as int;
            lemma_pow2_pos(ex as nat);
            lemma_pow2_pos(1074);
            lemma_pow2_adds(ex as nat, 1074);
            lemma_pow2_adds(ey as nat, shift as nat);
            let common = px * u * py;
            assert(px * u > 0) by (nonlinear_arith)
                requires
                    px > 0,
                    u > 0,
            ;
            assert(common > 0) by (nonlinear_arith)
                requires
                    common == (px * u) * py,
                    px * u > 0,
                    py > 0,
            ;
            assert(n * (py * pp) == dividend * common) by (nonlinear_arith)
                requires
                    n == (mx * px) * u,
                    dividend == mx * pp,
                    common == px * u * py,
            ;
            assert(q * ((px * u) * d) == (by * q) * common) by (nonlinear_arith)
                requires
                    d == by * py,
                    common == px * u * py,
            ;
            assert((q + 1) * ((px * u) * d) == (by * q + by) * common) by (nonlinear_arith)
                requires
                    d == by * py,
                    common == px * u * py,
            ;
            if rest > 0 {
                assert((by * q) * common < dividend * common < (by * q + by) * common)
                    by (nonlinear_arith)
                    requires
                        by * q < dividend < by * q + by,
                        common > 0,
                ;
            }
        }
        Self::join(
            negative,
            round_scaled(mantissa, ex + 1074, ey + shift, rest != 0, Ghost(n), Ghost(d)),
        )
    }

    /// `self + other`.
    pub fn add_number(self, other: Float64) -> (r: Float64)
        ensures
            r == self.plus(other),
    {
        if self.is_nan() || other.is_nan() {
            return Float64 { bits: NAN_BITS };
        }
        let x: u64 = self.pattern_bits();
        let y: u64 = other.pattern_bits();
        if x == INFINITY_BITS {
            if y == INFINITY_BITS && self.is_negative() != other.is_negative() {
                return Float64 { bits: NAN_BITS };
            }
            return self;
        }
        if y == INFINITY_BITS {
            return other;
        }
        proof {
            crate::float64::lemma_value_order(self, other);
            assert(self.value() + other.value() == other.value() + self.value());
        }
        if x == 0 && y == 0 {
            return Self::join(self.is_negative() && other.is_negative(), 0);
        }
        if x >= y {
            self.add_smaller(other)
        } else {
            other.add_smaller(self)
        }
    }

    /// `self + other`, where `other` is no larger in size, and not both are zero.
    fn add_smaller(self, other: Float64) -> (r: Float64)
        requires
            self.finite(),
            other.finite(),
            other.pattern() <= self.pattern(),
            self.pattern() > 0,
        ensures
            r == self.plus(other),
    {
        let x: u64 = self.pattern_bits();
        let y: u64 = other.pattern_bits();
        let same: bool = self.is_negative() == other.is_negative();
        proof {
            crate::float64::lemma_value_order(self, other);
        }
        if x == y && !same {
            return Self::join(false, 0);
        }
        let (mx, ex) = self.parts();
        let (my, ey) = other.parts();
        let ghost exact = self.value() + other.value();
        proof {
            lemma_exponents_ordered(mx as int, ex as int, my as int, ey as int);
        }
        let gap: u32 = ex - ey;
        let high: u128 = mx as u128 * 0x1_0000_0000_0000_0000;
        let mut low: u128 = 0;
        let mut lost: bool = false;
        let ghost pg = pow2(gap as nat) as int;
        let ghost px = pow2(ex as nat) as int;
        let ghost py = pow2(ey as nat) as int;
        let ghost wide = 0x1_0000_0000_0000_0000int;
        proof {
            lemma2_to64();
            lemma2_to64_rest();
            lemma_pow2_pos(gap as nat);
            lemma_pow2_pos(ex as nat);
            lemma_pow2_pos(ey as nat);
            lemma_pow2_adds(gap as nat, ey as nat);
        }
        if gap <= 64 {
            let p: u128 = wide_power_of_two(64 - gap);
            proof {
                lemma_pow2_adds((64 - gap) as nat, gap as nat);
                if gap > 0 {
                    lemma_pow2_strictly_increases((64 - gap) as nat, 64);
                }
                assert(my * p <= (2 * EXPONENT_STEP) * wide) by (nonlinear_arith)
                    requires
                        0 <= my < 2 * EXPONENT_STEP,
                        0 < p <= wide,
                ;
                // The bits all fit.
                assert((my * p) * px == (my * wide) * py) by (nonlinear_arith)
                    requires
                        p * pg == wide,
                        pg * py == px,
                ;
            }
            low = my as u128 * p;
        } else {
            let cut: u32 = gap - 64;
            proof {
                lemma_pow2_adds(cut as nat, 64);
            }
            if cut <= 64 {
                let p: u128 = wide_power_of_two(cut);
                low = my as u128 / p;
                lost = my as u128 % p != 0;
                proof {
                    vstd::arithmetic::div_mod::lemma_fundamental_div_mod(my as int, p as int);
                    let q = low as int;
                    assert(q <= my) by (nonlinear_arith)
                        requires
                            p * q <= my,
                            p >= 1,
                            q >= 0,
                    ;
                    lemma_low_part(my as int, q, p as int, wide, px, py, pg);
                }
            } else {
                lost = my != 0;
                proof {
                    let p = pow2(cut as nat) as int;
                    lemma_pow2_strictly_increases(64, cut as nat);
                    lemma_low_part(my as int, 0, p, wide, px, py, pg);
                }
            }
        }
        // Now `low * px <= my * wide * py < (low + 1) * px`, with equality where nothing is lost.
        let mantissa: u128 = if same {
            high + low
        } else if lost {
            high - low - 1
        } else {
            proof {
                lemma_low_at_most(high as int, low as int, mx as int, my as int, px, py, wide);
            }
            high - low
        };
        proof {
            let n = size(exact);
            let vx = mx * px;
            let vy = my * py;
            if x > y {
                lemma_magnitude_increases(y as int, x as int);
            }
            assert(high * px == vx * wide) by (nonlinear_arith)
                requires
                    high == mx * wide,
                    vx == mx * px,
            ;
            assert((my * wide) * py == vy * wide) by (nonlinear_arith)
                requires
                    vy == my * py,
            ;
            let l = low as int;
            let h = high as int;
            assert((l + 1) * px == l * px + px) by (nonlinear_arith);
            assert((h + l) * px == h * px + l * px) by (nonlinear_arith);
            assert((h - l) * px == h * px - l * px) by (nonlinear_arith);
            assert((h + l + 1) * px == h * px + l * px + px) by (nonlinear_arith);
            assert((h - l - 1) * px == h * px - l * px - px) by (nonlinear_arith);
            assert((vx + vy) * wide == vx * wide + vy * wide) by (nonlinear_arith);
            assert((vx - vy) * wide == vx * wide - vy * wide) by (nonlinear_arith);
            assert(px * 1 == px);
            if same {
                assert(n == vx + vy);
            } else {
                assert(n == vx - vy);
                assert(mantissa > 0) by {
                    if !lost {
                        assert((h - l) * px == n * wide);
                        assert(h - l > 0) by (nonlinear_arith)
                            requires
                                (h - l) * px == n * wide,
                                n > 0,
                                wide > 0,
                                px > 0,
                        ;
                    }
                }
            }
            assert(scaled(n, 1, mantissa as int, ex as nat, 64, lost));
        }
        Self::join(
            self.is_negative(),
            round_scaled(mantissa, ex, 64, lost, Ghost(size(exact)), Ghost(1)),
        )
    }

    /// `self - other`.
    pub fn subtract(self, other: Float64) -> (r: Float64)
        ensures
            r == self.minus(other),
    {
        self.add_number(other.negate())
    }

    /// Whether `nanos` is this many seconds in nanoseconds, to the nearest one, ties going to
    /// the even one.
    pub open spec fn lasts(self, nanos: int) -> bool {
        let exact = 2 * self.value() * 1_000_000_000;
        if nanos % 2 == 0 {
            (2 * nanos - 1) * unit() <= exact <= (2 * nanos + 1) * unit()
        } else {
            (2 * nanos - 1) * unit() < exact < (2 * nanos + 1) * unit()
        }
    }

    /// Whether this is a number of seconds that a duration can have: not negative, and less
    /// than 2 to the power 64 when rounded to nanoseconds.
    pub open spec fn is_duration(self) -> bool {
        &&& self.finite()
        &&& self.value() >= 0
        &&& 2 * self.value() * 1_000_000_000 < (2 * (LONGEST_SPAN + 1) - 1) * unit()
    }

    /// This many seconds, in nanoseconds; `None` where no duration is so long.
    pub fn to_nanos(self) -> (r: Option<u128>)
        ensures
            match r {
                Some(nanos) => self.is_duration() && self.lasts(nanos as int) && nanos
                    <= LONGEST_SPAN,
                None => !self.is_duration(),
            },
    {
        let x: u64 = self.pattern_bits();
        proof {
            crate::float64::lemma_value_order(self, self);
            lemma_pow2_pos(1074);
        }
        if x >= INFINITY_BITS || (x != 0 && self.is_negative()) {
            return None;
        }
        let (m, e) = self.parts();
        let scaled_up: u128 = m as u128 * 1_000_000_000;
        let ghost u = unit();
        let ghost v = self.value();
        let ghost pe = pow2(e as nat) as int;
        proof {
            lemma_pow2_pos(e as nat);
            assert(v == m * pe);
            assert(2 * v * 1_000_000_000 == 2 * (scaled_up * pe)) by (nonlinear_arith)
                requires
                    v == m * pe,
                    scaled_up == m * 1_000_000_000,
            ;
        }
        if e >= 1074 {
            let c: u32 = e - 1074;
            proof {
                lemma_pow2_adds(c as nat, 1074);
                lemma2_to64();
                lemma2_to64_rest();
            }
            if c >= 12 {
                proof {
                    let pc = pow2(c as nat) as int;
                    if c > 12 {
                        lemma_pow2_strictly_increases(12, c as nat);
                    }
                    assert(scaled_up * pe >= (LONGEST_SPAN + 1) * u) by (nonlinear_arith)
                        requires
                            scaled_up >= 0x10_0000_0000_0000 * 1_000_000_000,
                            pe == pc * u,
                            pc >= 4096,
                            u > 0,
                            LONGEST_SPAN + 1 == 0x1_0000_0000_0000_0000 * 1_000_000_000,
                    ;
                    assert((2 * (LONGEST_SPAN + 1) - 1) * u == 2 * ((LONGEST_SPAN + 1) * u) - u)
                        by (nonlinear_arith);
                }
                return None;
            }
            let p: u128 = wide_power_of_two(c);
            proof {
                lemma_pow2_strictly_increases(c as nat, 12);
                assert(scaled_up * p <= 0x20_0000_0000_0000 * 1_000_000_000 * 4096)
                    by (nonlinear_arith)
                    requires
                        0 <= scaled_up <= 0x20_0000_0000_0000 * 1_000_000_000,
                        0 < p <= 4096,
                ;
            }
            let nanos: u128 = scaled_up * p;
            proof {
                let w = nanos as int;
                assert(scaled_up * pe == w * u) by (nonlinear_arith)
                    requires
                        pe == p * u,
                        w == scaled_up * p,
                ;
                assert((2 * w - 1) * u == 2 * (w * u) - u) by (nonlinear_arith);
                assert((2 * w + 1) * u == 2 * (w * u) + u) by (nonlinear_arith);
                lemma_whole_duration(w, m as int, p as int, u);
            }
            if nanos > LONGEST_SPAN {
                return None;
            }
            Some(nanos)
        } else {
            let s: u32 = 1074 - e;
            proof {
                lemma_pow2_adds(s as nat, e as nat);
                lemma2_to64();
                lemma2_to64_rest();
                lemma_two_to_128();
            }
            if s >= 128 {
                proof {
                    let ps = pow2(s as nat) as int;
                    if s > 128 {
                        lemma_pow2_strictly_increases(128, s as nat);
                    }
                    assert(2 * (scaled_up * pe) < u) by (nonlinear_arith)
                        requires
                            2 * scaled_up < ps,
                            u == ps * pe,
                            pe > 0,
                    ;
                    assert((2 * 0 - 1) * u == -u) by (nonlinear_arith);
                    assert((2 * 0 + 1) * u == u) by (nonlinear_arith);
                    assert((2 * 0 + 2) * u == 2 * u) by (nonlinear_arith);
                    lemma_short_duration(v, 0, u);
                }
                return Some(0);
            }
            let p: u128 = wide_power_of_two(s);
            let half: u128 = p / 2;
            let q: u128 = scaled_up / p;
            let rest: u128 = scaled_up % p;
            let up: bool = rest > half || (rest == half && q % 2 == 1);
            proof {
                vstd::arithmetic::div_mod::lemma_fundamental_div_mod(scaled_up as int, p as int);
                lemma_pow2_adds((s - 1) as nat, 1);
                assert(p == 2 * half);
                assert(q <= scaled_up) by (nonlinear_arith)
                    requires
                        p * q <= scaled_up,
                        p >= 1,
                        q >= 0,
                ;
                lemma_nearest_nanos(
                    scaled_up as int,
                    q as int,
                    rest as int,
                    p as int,
                    half as int,
                    pe,
                    u,
                );
                lemma_short_duration(v, q as int, u);
            }
            if up {
                Some(q + 1)
            } else {
                Some(q)
            }
        }
    }

    /// The double nearest to the integer `n`.
    pub fn from_integer(n: i128) -> (r: Float64)
        ensures
            r == Float64::of_integer(n as int),
    {
        proof {
            lemma_pow2_pos(1074);
        }
        if n == 0 {
            proof {
                lemma_nearest_to_zero(1);
                assert(0 * unit() == 0) by (nonlinear_arith);
            }
            return Float64 { bits: 0 };
        }
        let mantissa: u128 = if n < 0 {
            (-(n + 1)) as u128 + 1
        } else {
            n as u128
        };
        proof {
            let u = unit();
            lemma2_to64();
            let one = pow2(0) as int;
            assert((mantissa * u) * one == mantissa * (u * 1)) by (nonlinear_arith)
                requires
                    one == 1,
            ;
        }
        Self::join(
            n < 0,
            round_scaled(mantissa, 1074, 0, false, Ghost(size(n as int) * unit()), Ghost(1)),
        )
    }
}

/// A number that is no smaller has no smaller exponent.
proof fn lemma_exponents_ordered(mx: int, ex: int, my: int, ey: int)
    requires
        0 <= ex,
        0 <= ey,
        0 <= mx < 2 * EXPONENT_STEP,
        0 <= my < 2 * EXPONENT_STEP,
        ey > 0 ==> my >= EXPONENT_STEP,
        my * pow2(ey as nat) <= mx * pow2(ex as nat),
    ensures
        ey <= ex,
{
    if ex < ey {
        let px = pow2(ex as nat) as int;
        lemma_pow2_pos(ex as nat);
        lemma_pow2_adds(ex as nat, 1);
        lemma2_to64();
        if ex + 1 < ey {
            lemma_pow2_strictly_increases((ex + 1) as nat, ey as nat);
        }
        let py = pow2(ey as nat) as int;
        assert(py >= 2 * px);
        assert(mx * px < my * py) by (nonlinear_arith)
            requires
                mx < 2 * EXPONENT_STEP,
                my >= EXPONENT_STEP,
                py >= 2 * px,
                px > 0,
        ;
    }
}

/// Where the bits that are cut off a mantissa stand, over the scale of the larger number.
proof fn lemma_low_part(my: int, low: int, p: int, wide: int, px: int, py: int, pg: int)
    requires
        p * low <= my < p * low + p,
        pg == p * wide,
        px == pg * py,
        py > 0,
        wide > 0,
    ensures
        low * px <= (my * wide) * py < (low + 1) * px,
        my == p * low ==> low * px == (my * wide) * py,
        my > p * low ==> low * px < (my * wide) * py,
{
    let c = wide * py;
    assert(c > 0) by (nonlinear_arith)
        requires
            c == wide * py,
            wide > 0,
            py > 0,
    ;
    assert(low * px == (p * low) * c) by (nonlinear_arith)
        requires
            px == (p * wide) * py,
            c == wide * py,
    ;
    assert((low + 1) * px == (p * low + p) * c) by (nonlinear_arith)
        requires
            px == (p * wide) * py,
            c == wide * py,
    ;
    assert((my * wide) * py == my * c) by (nonlinear_arith)
        requires
            c == wide * py,
    ;
    assert((p * low) * c <= my * c < (p * low + p) * c) by (nonlinear_arith)
        requires
            p * low <= my < p * low + p,
            c > 0,
    ;
    if my > p * low {
        assert((p * low) * c < my * c) by (nonlinear_arith)
            requires
                p * low < my,
                c > 0,
        ;
    }
}

/// The smaller number is no larger over the scale of the larger one either.
proof fn lemma_low_at_most(high: int, low: int, mx: int, my: int, px: int, py: int, wide: int)
    requires
        high == mx * wide,
        low * px == (my * wide) * py,
        my * py <= mx * px,
        px > 0,
        wide > 0,
    ensures
        low <= high,
{
    assert((my * wide) * py == (my * py) * wide) by (nonlinear_arith);
    assert(high * px == (mx * px) * wide) by (nonlinear_arith)
        requires
            high == mx * wide,
    ;
    assert((my * py) * wide <= (mx * px) * wide) by (nonlinear_arith)
        requires
            my * py <= mx * px,
            wide > 0,
    ;
    lemma_cancel_factor(low, high, px);
}

/// Whole seconds make a duration exactly when there are few enough of them.
proof fn lemma_whole_duration(w: int, m: int, p: int, u: int)
    requires
        w == (m * 1_000_000_000) * p,
        u > 0,
    ensures
        w <= LONGEST_SPAN <==> 2 * (w * u) < (2 * (LONGEST_SPAN + 1) - 1) * u,
{
    let limit = LONGEST_SPAN + 1;
    assert((2 * limit - 1) * u == 2 * (limit * u) - u) by (nonlinear_arith);
    if w <= LONGEST_SPAN {
        assert(w * u <= (limit - 1) * u) by (nonlinear_arith)
            requires
                w <= limit - 1,
                u > 0,
        ;
        assert((limit - 1) * u == limit * u - u) by (nonlinear_arith);
    } else {
        assert(w * u >= limit * u) by (nonlinear_arith)
            requires
                w >= limit,
                u > 0,
        ;
    }
}

/// What is less than a whole number of nanoseconds that is itself small makes a duration.
proof fn lemma_short_duration(v: int, q: int, u: int)
    requires
        u > 0,
        0 <= q < 0x1_0000_0000_0000_0000_0000_0000,
        2 * v * 1_000_000_000 < (2 * q + 2) * u,
        q + 2 <= LONGEST_SPAN,
    ensures
        2 * v * 1_000_000_000 < (2 * (LONGEST_SPAN + 1) - 1) * u,
{
    assert((2 * q + 2) * u <= (2 * (LONGEST_SPAN + 1) - 1) * u) by (nonlinear_arith)
        requires
            2 * q + 2 <= 2 * (LONGEST_SPAN + 1) - 1,
            u > 0,
    ;
}

/// Which number of nanoseconds is nearest, from the bits that are cut off.
proof fn lemma_nearest_nanos(w: int, q: int, rest: int, p: int, half: int, pe: int, u: int)
    requires
        w == p * q + rest,
        0 <= rest < p,
        p == 2 * half,
        u == p * pe,
        pe > 0,
        half > 0,
    ensures
        2 * (w * pe) < (2 * q + 2) * u,
        (2 * q - 1) * u < 2 * (w * pe),
        rest < half ==> 2 * (w * pe) < (2 * q + 1) * u,
        rest == half ==> 2 * (w * pe) == (2 * q + 1) * u,
        rest > half ==> 2 * (w * pe) > (2 * q + 1) * u,
        2 * (w * pe) < (2 * (q + 1) + 1) * u,
{
    let g = half * pe;
    assert(g > 0) by (nonlinear_arith)
        requires
            g == half * pe,
            half > 0,
            pe > 0,
    ;
    assert(u == 2 * g) by (nonlinear_arith)
        requires
            u == (2 * half) * pe,
            g == half * pe,
    ;
    assert(2 * (w * pe) == (2 * q) * u + 2 * (rest * pe)) by (nonlinear_arith)
        requires
            w == p * q + rest,
            u == p * pe,
    ;
    assert((2 * q + 2) * u == (2 * q) * u + 2 * u) by (nonlinear_arith);
    assert((2 * q + 1) * u == (2 * q) * u + u) by (nonlinear_arith);
    assert((2 * q - 1) * u == (2 * q) * u - u) by (nonlinear_arith);
    assert((2 * (q + 1) + 1) * u == (2 * q) * u + 3 * u) by (nonlinear_arith);
    assert(0 <= rest * pe < p * pe) by (nonlinear_arith)
        requires
            0 <= rest < p,
            pe > 0,
    ;
    if rest < half {
        assert(rest * pe < g) by (nonlinear_arith)
            requires
                rest < half,
                g == half * pe,
                pe > 0,
        ;
    } else if rest > half {
        assert(rest * pe > g) by (nonlinear_arith)
            requires
                rest > half,
                g == half * pe,
                pe > 0,
        ;
    }
}

/// Zero is nearest to zero.
pub proof fn lemma_nearest_to_zero(d: int)
    requires
        d > 0,
    ensures
        rounded(0, d) == 0,
{
    let twice = magnitude(0) + magnitude(1);
    assert(0 <= twice * d) by (nonlinear_arith)
        requires
            twice >= 0,
            d > 0,
    ;
    lemma_rounded_is(0, d, 0);
}

/// So many nanoseconds in seconds: the whole seconds and the rest are converted each for itself.
pub open spec fn seconds_of(nanos: int) -> Float64 {
    Float64::of_integer(nanos / 1_000_000_000).plus(
        Float64::of_integer(nanos % 1_000_000_000).divided_by(Float64::of_integer(1_000_000_000)),
    )
}

/// So many nanoseconds in seconds.
pub fn seconds_as_double(nanos: u128) -> (r: Float64)
    ensures
        r == seconds_of(nanos as int),
{
    let whole: i128 = (nanos / 1_000_000_000) as i128;
    let rest: i128 = (nanos % 1_000_000_000) as i128;
    Float64::from_integer(whole).add_number(
        Float64::from_integer(rest).divide(Float64::from_integer(1_000_000_000)),
    )
}

/// What a finite double stands for exactly is rounded to that double.
pub proof fn lemma_exact_is_nearest(n: int, d: int, pattern: int)
    requires
        d > 0,
        0 <= pattern < INFINITY_BITS,
        magnitude(pattern) * d == n,
    ensures
        rounded(n, d) == pattern,
{
    let here = magnitude(pattern);
    let above = magnitude(pattern + 1);
    lemma_magnitude_increases(pattern, pattern + 1);
    assert(2 * (here * d) < (here + above) * d) by (nonlinear_arith)
        requires
            here < above,
            d > 0,
    ;
    if pattern > 0 {
        let below = magnitude(pattern - 1);
        lemma_magnitude_increases(pattern - 1, pattern);
        assert((below + here) * d < 2 * (here * d)) by (nonlinear_arith)
            requires
                below < here,
                d > 0,
        ;
    }
    lemma_rounded_is(n, d, pattern);
}

/// How many bits `n` has: one more than the result.
proof fn lemma_highest_bit(n: int) -> (l: nat)
    requires
        n >= 1,
    ensures
        pow2(l) <= n < pow2(l + 1),
    decreases n,
{
    lemma2_to64();
    if n == 1 {
        0
    } else {
        let l = lemma_highest_bit(n / 2);
        lemma_pow2_adds(1, l);
        lemma_pow2_adds(1, l + 1);
        l + 1
    }
}

/// The double nearest to a positive integer of at most 64 bits.
proof fn lemma_integer_pattern(n: int) -> (l: nat)
    requires
        1 <= n <= 0xFFFF_FFFF_FFFF_FFFF,
    ensures
        l <= 63,
        pow2(l) <= n < pow2(l + 1),
        (1023 + l) * EXPONENT_STEP <= rounded(n * unit(), 1) <= (1024 + l) * EXPONENT_STEP,
{
    let l = lemma_highest_bit(n);
    lemma2_to64();
    lemma2_to64_rest();
    if l > 63 {
        if l > 64 {
            lemma_pow2_strictly_increases(64, l);
        }
    }
    let step = EXPONENT_STEP as int;
    let e = (1022 + l) as int;
    let p = pow2(e as nat) as int;
    let exact = n * unit();
    let k = exact / p;
    let low = pow2(l) as int;
    lemma_pow2_pos(1074);
    lemma_pow2_pos(e as nat);
    lemma_pow2_adds(l, 1);
    lemma_pow2_adds(l, 1074);
    lemma_pow2_adds(52, e as nat);
    assert(pow2((l + 1074) as nat) == pow2((52 + e) as nat));
    let u = unit();
    assert(step * p == low * u);
    assert(step * p <= exact < 2 * step * p) by (nonlinear_arith)
        requires
            low <= n < 2 * low,
            u > 0,
            step * p == low * u,
            exact == n * u,
    ;
    vstd::arithmetic::div_mod::lemma_fundamental_div_mod(exact, p);
    let rest = exact % p;
    assert(0 <= rest < p);
    assert(step <= k) by (nonlinear_arith)
        requires
            step * p <= exact,
            exact == p * k + rest,
            rest < p,
            p > 0,
    ;
    assert(k < 2 * step) by (nonlinear_arith)
        requires
            exact < 2 * step * p,
            exact == p * k + rest,
            rest >= 0,
            p > 0,
    ;
    assert((k + 1) * p * 1 == k * p + p) by (nonlinear_arith);
    assert(k * p * 1 == p * k) by (nonlinear_arith);
    assert((2 * k + 1) * p * 1 == 2 * (k * p) + p) by (nonlinear_arith);
    let side = 2 * rest - p;
    let up = side > 0 || (side == 0 && k % 2 == 1);
    lemma_round_step(exact, 1, e, k, side, up);
    let pattern = e * step + k + if up {
        1int
    } else {
        0int
    };
    lemma_rounded_is(exact, 1, pattern);
    l
}

/// Whole numbers of at most 53 bits are doubles.
pub proof fn law_whole_numbers_are_exact(n: int)
    requires
        -0x20_0000_0000_0000 <= n <= 0x20_0000_0000_0000,
    ensures
        Float64::of_integer(n).finite(),
        Float64::of_integer(n).value() == n * unit(),
{
    let m = size(n);
    let u = unit();
    if m == 0 {
        assert(0 * u == 0) by (nonlinear_arith);
        lemma_nearest_to_zero(1);
        lemma_rounded_is(0, 1, 0);
    } else {
        let l = lemma_integer_pattern(m);
        lemma2_to64();
        lemma2_to64_rest();
        let step = EXPONENT_STEP as int;
        if l > 53 {
            lemma_pow2_strictly_increases(53, l);
        }
        if l == 53 {
            assert(m == 2 * step);
            lemma_magnitude_split(1076, 0);
            lemma_pow2_adds(1, 1074);
            assert((step + 0) * pow2(1075) == m * u) by (nonlinear_arith)
                requires
                    m == 2 * step,
                    pow2(1075) == 2 * u,
            ;
            assert(magnitude(1076 * step) * 1 == m * u);
            lemma_exact_is_nearest(m * u, 1, 1076 * step);
        } else {
            let scale = pow2((52 - l) as nat) as int;
            let low = pow2(l) as int;
            let rest = pow2((1022 + l) as nat) as int;
            lemma_pow2_adds(l, (52 - l) as nat);
            lemma_pow2_adds((52 - l) as nat, (1022 + l) as nat);
            lemma_pow2_adds(l, 1);
            lemma_pow2_pos((52 - l) as nat);
            assert(low * scale <= m * scale < 2 * low * scale) by (nonlinear_arith)
                requires
                    low <= m < 2 * low,
                    scale > 0,
            ;
            assert(2 * low * scale == 2 * step) by (nonlinear_arith)
                requires
                    low * scale == step,
            ;
            let fraction = m * scale - step;
            lemma_magnitude_split((1023 + l) as int, fraction);
            assert(m * scale * rest == m * u) by (nonlinear_arith)
                requires
                    scale * rest == u,
            ;
            lemma_exact_is_nearest(m * u, 1, (1023 + l) * step + fraction);
        }
        assert(-n * u == -(n * u)) by (nonlinear_arith);
    }
}

/// Half of an integer and its other half make the double nearest to the integer.
pub proof fn law_halves_add_up(n: int)
    requires
        i64::MIN <= n <= i64::MAX,
    ensures
        ({
            let half = Float64::of_integer(n).divided_by(Float64::of_integer(2));
            half.plus(half) == Float64::of_integer(n)
        }),
{
    let x = Float64::of_integer(n);
    let two = Float64::of_integer(2);
    let half = x.divided_by(two);
    let u = unit();
    lemma_pow2_pos(1074);
    law_whole_numbers_are_exact(2);
    if n == 0 {
        law_whole_numbers_are_exact(0);
        assert(0 * u == 0) by (nonlinear_arith);
        lemma_nearest_to_zero(1);
        lemma_rounded_is(0, 1, 0);
        lemma_nearest_to_zero(2 * u);
        lemma_rounded_is(0, 2 * u, 0);
        assert(size(two.value()) == 2 * u);
        assert(two.pattern() > 0) by {
            assert(magnitude(0) == 0);
        }
        assert(half == joined(false, 0));
    } else {
        let step = EXPONENT_STEP as int;
        let l = lemma_integer_pattern(size(n));
        let p = rounded(size(n) * u, 1);
        assert(p < INFINITY_BITS && p >= 2 * step);
        assert(x.pattern() == p && x.negative() == (n < 0));
        let e = p / step;
        let fraction = p % step;
        vstd::arithmetic::div_mod::lemma_fundamental_div_mod(p, step);
        vstd::arithmetic::div_mod::lemma_fundamental_div_mod_converse(
            p - step,
            step,
            e - 1,
            fraction,
        );
        lemma_magnitude_split(e, fraction);
        lemma_magnitude_split(e - 1, fraction);
        lemma_pow2_adds(1, (e - 2) as nat);
        lemma2_to64();
        let pe = pow2((e - 2) as nat) as int;
        assert((step + fraction) * (2 * pe) == 2 * ((step + fraction) * pe)) by (nonlinear_arith);
        let whole = magnitude(p);
        let part = magnitude(p - step);
        assert(whole == 2 * part);
        assert(part * (2 * u) == whole * u) by (nonlinear_arith)
            requires
                whole == 2 * part,
        ;
        lemma_exact_is_nearest(whole * u, 2 * u, p - step);
        assert(two.pattern() > 0) by {
            assert(magnitude(0) == 0);
        }
        lemma_magnitude_increases(0, p - step);
        assert(size(x.value()) == whole);
        assert(size(two.value()) == 2 * u);
        assert(!two.negative());
        assert(half == joined(n < 0, p - step));
        assert(half.value() + half.value() == x.value());
        lemma_exact_is_nearest(whole, 1, p);
    }
}

/// Whether `n / d` is past the midpoint below `pattern`, or on it where `pattern` is even.
spec fn reaches(n: int, d: int, pattern: int) -> bool {
    pattern > 0 ==> {
        let twice_midpoint = magnitude(pattern - 1) + magnitude(pattern);
        if pattern % 2 == 0 {
            twice_midpoint * d <= 2 * n
        } else {
            twice_midpoint * d < 2 * n
        }
    }
}

/// From a pattern that is reached, there is a nearest one at or after it.
proof fn lemma_nearest_from(n: int, d: int, pattern: int)
    requires
        0 <= pattern <= INFINITY_BITS,
        reaches(n, d, pattern),
    ensures
        exists|q: int| nearest_to(n, d, q),
    decreases INFINITY_BITS - pattern,
{
    if pattern == INFINITY_BITS || !reaches(n, d, pattern + 1) {
        assert(nearest_to(n, d, pattern));
    } else {
        lemma_nearest_from(n, d, pattern + 1);
    }
}

/// There is a nearest double.
pub proof fn lemma_rounded_is_nearest(n: int, d: int)
    ensures
        nearest_to(n, d, rounded(n, d)),
{
    lemma_nearest_from(n, d, 0);
}

/// Rounding does not pass a double.
pub proof fn lemma_rounding_keeps_order(n: int, d: int, pattern: int)
    requires
        d > 0,
        0 <= pattern <= INFINITY_BITS,
    ensures
        magnitude(pattern) * d <= n ==> pattern <= rounded(n, d),
        n <= magnitude(pattern) * d ==> rounded(n, d) <= pattern,
{
    lemma_rounded_is_nearest(n, d);
    let p = rounded(n, d);
    let here = magnitude(pattern);
    if magnitude(pattern) * d <= n && p < pattern {
        let below = magnitude(p);
        let next = magnitude(p + 1);
        lemma_magnitude_increases(p, p + 1);
        if p + 1 < pattern {
            lemma_magnitude_increases(p + 1, pattern);
        }
        assert((below + next) * d < 2 * (here * d)) by (nonlinear_arith)
            requires
                below < next <= here,
                d > 0,
        ;
    }
    if n <= magnitude(pattern) * d && pattern < p {
        let below = magnitude(p - 1);
        let there = magnitude(p);
        lemma_magnitude_increases(p - 1, p);
        if pattern < p - 1 {
            lemma_magnitude_increases(pattern, p - 1);
        }
        assert(2 * (here * d) < (below + there) * d) by (nonlinear_arith)
            requires
                here <= below < there,
                d > 0,
        ;
    }
}

/// A share of a number that is not negative is no more than the number.
pub proof fn law_shares_are_no_more(x: Float64, share: Float64)
    requires
        x.finite(),
        x.value() >= 0,
        share.finite(),
        0 <= share.value() <= unit(),
    ensures
        x.times(share).finite(),
        0 <= x.times(share).value() <= x.value(),
{
    lemma_pow2_pos(1074);
    crate::float64::lemma_value_order(x, share);
    let u = unit();
    let a = size(x.value());
    let b = size(share.value());
    assert(a == magnitude(x.pattern()));
    assert(0 <= a * b <= a * u) by (nonlinear_arith)
        requires
            0 <= a,
            0 <= b <= u,
    ;
    lemma_rounded_is_nearest(a * b, u);
    lemma_rounding_keeps_order(a * b, u, x.pattern());
    let p = rounded(a * b, u);
    let product = x.times(share);
    assert(product.pattern() == p);
    if p < x.pattern() {
        lemma_magnitude_increases(p, x.pattern());
    }
    if p > 0 {
        lemma_magnitude_increases(0, p);
        if x.pattern() > 0 {
            lemma_magnitude_increases(0, x.pattern());
        }
    }
    if product.negative() && p > 0 {
        // One factor is negative and not below zero: it is zero, and so is the product.
        assert(a == 0 || b == 0);
        assert(a * b == 0) by (nonlinear_arith)
            requires
                a == 0 || b == 0,
        ;
        lemma_nearest_to_zero(u);
        lemma_rounded_is(0, u, 0);
    }
}

/// Adding what is not negative to a number that is not negative does not make it smaller.
pub proof fn law_sums_are_no_less(x: Float64, step: Float64)
    requires
        !x.nan(),
        x.value() >= 0,
        !step.nan(),
        step.value() >= 0,
    ensures
        !x.plus(step).nan(),
        x.plus(step).value() >= x.value(),
{
    crate::float64::lemma_value_order(x, step);
    let sum = x.plus(step);
    if x.finite() && step.finite() {
        let exact = x.value() + step.value();
        if exact != 0 {
            lemma_rounded_is_nearest(exact, 1);
            assert(magnitude(x.pattern()) * 1 <= exact);
            lemma_rounding_keeps_order(exact, 1, x.pattern());
            let p = rounded(exact, 1);
            assert(sum.pattern() == p);
            if x.pattern() < p {
                lemma_magnitude_increases(x.pattern(), p);
            }
        }
    } else {
        crate::float64::lemma_value_order(x, sum);
        crate::float64::lemma_value_order(step, sum);
    }
}

} // verus!
