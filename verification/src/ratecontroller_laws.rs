//! What the rate controller promises, in terms of what goes into it and what comes out.
use crate::address::{AddrMap, IpAddr};
use crate::arithmetic::{
    joined, law_whole_numbers_are_exact, lemma_exact_is_nearest, lemma_nearest_to_zero,
    lemma_rounded_is, seconds_of, size,
};
use crate::clock::{span, LONGEST_SPAN};
use crate::config::{Config, HALF};
use crate::float64::{
    lemma_magnitude_increases, lemma_magnitude_split, lemma_value_order, magnitude, unit, Float64,
    EXPONENT_STEP, INFINITY_BITS,
};
use crate::pinger::ReflectorStats;
use crate::precision::{
    huge, law_differences_are_near, law_seconds_are_near, lemma_joined_value, lemma_near_chain,
    lemma_near_multiplied, lemma_near_quotient, lemma_near_scaled, lemma_product_near,
    lemma_quotient_near, lemma_unit_is_large, near, precision, wide,
};
use crate::ratecontroller::{
    age_limit, calculated, change, clamped, counts, excess, lemma_whole_order, pause_secs,
    starting_rate, utilisation_at, Action, Direction, Event, Limits, NetlinkError,
    RatecontrolError, Ratecontroller, State, StatsDirection, Status, NINETY_FIVE_PERCENT,
};
use crate::sorting::{law_sorting_keeps_items, Ranked};
use vstd::arithmetic::div_mod::lemma_fundamental_div_mod;
use vstd::arithmetic::power2::{
    lemma2_to64, lemma2_to64_rest, lemma_pow2_adds, lemma_pow2_pos, pow2,
};
use vstd::prelude::*;

verus! {

/// Zero times anything finite, and zero divided by anything finite but zero, is zero.
proof fn lemma_zero_results(x: Float64, y: Float64)
    requires
        x.finite(),
        x.value() == 0,
        y.finite(),
    ensures
        y.times(x).finite(),
        y.times(x).value() == 0,
        y.value() != 0 ==> x.divided_by(y).finite() && x.divided_by(y).value() == 0,
{
    lemma_pow2_pos(1074);
    lemma_value_order(x, y);
    assert(size(y.value()) * 0 == 0);
    assert(0 * unit() == 0);
    assert(magnitude(0) == 0);
    lemma_nearest_to_zero(unit());
    lemma_rounded_is(0, unit(), 0);
    lemma_joined_value(x.negative() != y.negative(), 0);
    lemma_joined_value(y.negative() != x.negative(), 0);
    if y.value() != 0 {
        lemma_nearest_to_zero(size(y.value()));
        lemma_rounded_is(0, size(y.value()), 0);
    }
}

/// The difference of two whole numbers of at most 53 bits.
proof fn lemma_whole_difference(a: int, b: int)
    requires
        0 <= a <= precision(),
        0 <= b <= precision(),
    ensures
        ({
            let difference = Float64::of_integer(a).minus(Float64::of_integer(b));
            difference.finite() && difference.value() == (a - b) * unit()
        }),
{
    let u = unit();
    lemma_pow2_pos(1074);
    law_whole_numbers_are_exact(a);
    law_whole_numbers_are_exact(b);
    law_whole_numbers_are_exact(a - b);
    let x = Float64::of_integer(a);
    let y = Float64::of_integer(b);
    lemma_joined_value(!y.negative(), y.pattern());
    let exact = x.value() + y.negated().value();
    assert(exact == (a - b) * u) by (nonlinear_arith)
        requires
            exact == a * u - b * u,
    ;
    if a == b {
        assert(0 * u == 0);
        lemma_joined_value(x.negative() && y.negated().negative(), 0);
        assert(magnitude(0) == 0);
    } else {
        assert(exact != 0 && (exact < 0 <==> a - b < 0) && size(exact) == size(a - b) * u)
            by (nonlinear_arith)
            requires
                exact == (a - b) * u,
                u > 0,
                a != b,
        ;
    }
}

/// The factor from bytes to kbit: eight bits to a byte, a thousand to a kbit.
proof fn lemma_kbit_factor()
    ensures
        ({
            let factor = Float64::of_integer(8).divided_by(Float64::of_integer(1000));
            &&& factor.finite()
            &&& EXPONENT_STEP <= factor.value() <= unit()
            &&& near(factor.value(), 1, 8 * unit(), 1000, 1)
        }),
{
    let u = unit();
    let x = Float64::of_integer(8);
    let y = Float64::of_integer(1000);
    lemma_pow2_pos(1074);
    lemma_unit_is_large();
    law_whole_numbers_are_exact(8);
    law_whole_numbers_are_exact(1000);
    assert(EXPONENT_STEP * (1000 * u) <= (8 * u) * u <= huge() * (1000 * u)) by (nonlinear_arith)
        requires
            wide() * wide() * wide() * wide() * EXPONENT_STEP <= u,
            u * wide() * wide() * wide() <= huge(),
    ;
    lemma_quotient_near(x, y);
    let f = x.divided_by(y).value();
    assert(f >= 0);
    assert(near(f, 1, (8 * u) * u, 1000 * u, 1));
    assert(f * 1 == f);
    lemma_near_scaled(f, 1, 8 * u, 1000, 1, 1, u);
    let p = precision();
    assert(f <= u) by (nonlinear_arith)
        requires
            (f * 1000) * p <= (p + 1) * ((8 * u) * 1),
            p == 0x20_0000_0000_0000,
            u > 0,
    ;
}

/// The delay that counts: the third of the sorted delays, or the first where there are fewer.
pub open spec fn decisive(state: State) -> Float64 {
    state.deltas@[if state.deltas@.len() >= 3 {
        2int
    } else {
        0int
    }]
}

/// Where the delay that counts is positive, the utilisation is a rate: the bits counted since
/// the last time, in kbit, divided by the seconds that have passed, up to the rounding of the
/// doubles. So many bytes in half the time are twice the rate.
pub proof fn law_utilisation_is_a_rate(before: State, after: State, limits: Limits, now: u128)
    requires
        calculated(before, after, limits, now),
        before.deltas@.len() > 0,
        !decisive(before).nan(),
        decisive(before).value() > 0,
        0 <= before.previous_bytes <= precision(),
        0 <= before.current_bytes <= precision(),
        before.prev_t < now <= LONGEST_SPAN,
    ensures
        ({
            let bytes = before.current_bytes - before.previous_bytes;
            let nanos = now - before.prev_t;
            let rate = after.utilisation;
            &&& rate.finite()
            &&& rate.value() < 0 <==> bytes < 0
            &&& rate.value() > 0 <==> bytes > 0
            &&& near(size(rate.value()), 1, size(bytes) * 8_000_000 * unit(), nanos, 9)
        }),
{
    lemma_value_order(decisive(before), decisive(before));
    assert(magnitude(0) == 0);
    assert(after.utilisation == utilisation_at(before, now));
    lemma_utilisation(before, now);
}

/// Bytes in no time at all are no finite rate.
pub proof fn law_no_time_is_no_rate(before: State, after: State, limits: Limits, now: u128)
    requires
        calculated(before, after, limits, now),
        before.deltas@.len() > 0,
        !decisive(before).nan(),
        decisive(before).value() > 0,
        0 <= before.previous_bytes <= precision(),
        0 <= before.current_bytes <= precision(),
        now <= before.prev_t,
    ensures
        !after.utilisation.finite(),
        before.current_bytes > before.previous_bytes ==> !after.utilisation.nan()
            && !after.utilisation.negative(),
        before.current_bytes == before.previous_bytes ==> after.utilisation.nan(),
{
    let u = unit();
    let bytes = before.current_bytes - before.previous_bytes;
    let factor = Float64::of_integer(8).divided_by(Float64::of_integer(1000));
    let counted = Float64::of_integer(before.current_bytes as int).minus(
        Float64::of_integer(before.previous_bytes as int),
    );
    let kbits = factor.times(counted);
    let secs = seconds_of(0);
    lemma_value_order(decisive(before), decisive(before));
    assert(magnitude(0) == 0);
    assert(span(now, before.prev_t) == 0);
    lemma_pow2_pos(1074);
    lemma_unit_is_large();
    lemma_kbit_factor();
    lemma_whole_difference(before.current_bytes as int, before.previous_bytes as int);
    lemma_no_seconds();
    lemma_value_order(secs, kbits);
    assert(after.utilisation == kbits.divided_by(secs));
    assert(!secs.negative()) by {
        let zero = Float64::of_integer(0);
        assert(0int / 1_000_000_000 == 0 && 0int % 1_000_000_000 == 0);
        assert(0 * u == 0);
        lemma_nearest_to_zero(1);
        lemma_rounded_is(0, 1, 0);
        assert(zero == joined(false, 0));
        law_whole_numbers_are_exact(1_000_000_000);
        let billion = Float64::of_integer(1_000_000_000);
        let g = 1_000_000_000int;
        assert(g * u != 0) by (nonlinear_arith)
            requires
                u > 0,
                g > 0,
        ;
        lemma_zero_results(zero, billion);
    }
    if bytes == 0 {
        assert(0 * u == 0);
        lemma_zero_results(counted, factor);
    } else {
        let f = factor.value();
        let b = size(bytes);
        assert(size(counted.value()) == b * u && (counted.value() < 0 <==> bytes < 0))
            by (nonlinear_arith)
            requires
                counted.value() == bytes * u,
                b == size(bytes),
                u > 0,
                bytes != 0,
        ;
        let n = f * (b * u);
        assert(EXPONENT_STEP * u <= n <= huge() * u) by (nonlinear_arith)
            requires
                n == f * (b * u),
                EXPONENT_STEP <= f <= u,
                1 <= b <= wide(),
                u * wide() <= huge(),
                u > 0,
        {
            assert(b * u >= u);
            assert(f * (b * u) >= EXPONENT_STEP * u);
            assert(f * b <= u * wide());
            assert(n == (f * b) * u);
        }
        lemma_product_near(factor, counted);
    }
}

/// The utilisation, up to rounding.
proof fn lemma_utilisation(before: State, now: u128)
    requires
        0 <= before.previous_bytes <= precision(),
        0 <= before.current_bytes <= precision(),
        before.prev_t < now <= LONGEST_SPAN,
    ensures
        ({
            let bytes = before.current_bytes - before.previous_bytes;
            let nanos = now - before.prev_t;
            let rate = utilisation_at(before, now);
            &&& rate.finite()
            &&& rate.value() < 0 <==> bytes < 0
            &&& rate.value() > 0 <==> bytes > 0
            &&& near(size(rate.value()), 1, size(bytes) * 8_000_000 * unit(), nanos, 9)
        }),
{
    let u = unit();
    let p = precision();
    let g = 1_000_000_000int;
    let bytes = before.current_bytes - before.previous_bytes;
    let b = size(bytes);
    let nanos = now - before.prev_t;
    let factor = Float64::of_integer(8).divided_by(Float64::of_integer(1000));
    let counted = Float64::of_integer(before.current_bytes as int).minus(
        Float64::of_integer(before.previous_bytes as int),
    );
    let kbits = factor.times(counted);
    let secs = seconds_of(nanos);
    assert(span(now, before.prev_t) == nanos);
    let rate = utilisation_at(before, now);
    assert(rate == kbits.divided_by(secs));
    lemma_pow2_pos(1074);
    lemma_unit_is_large();
    lemma_kbit_factor();
    lemma_whole_difference(before.current_bytes as int, before.previous_bytes as int);
    law_seconds_are_near(nanos);
    if bytes == 0 {
        assert(0 * u == 0);
        lemma_zero_results(counted, factor);
        lemma_zero_results(kbits, secs);
        assert(0 * 8_000_000 * u == 0);
    } else {
        let f = factor.value();
        assert(size(counted.value()) == b * u && (counted.value() < 0 <==> bytes < 0))
            by (nonlinear_arith)
            requires
                counted.value() == bytes * u,
                b == size(bytes),
                u > 0,
                bytes != 0,
        ;
        let n = f * (b * u);
        assert(EXPONENT_STEP * u <= n <= huge() * u) by (nonlinear_arith)
            requires
                n == f * (b * u),
                EXPONENT_STEP <= f <= u,
                1 <= b <= wide(),
                u * wide() <= huge(),
                u > 0,
        {
            assert(b * u >= u);
            assert(f * (b * u) >= EXPONENT_STEP * u);
            assert(f * b <= u * wide());
            assert(n == (f * b) * u);
        }
        lemma_product_near(factor, counted);
        let k = size(kbits.value());
        assert(near(k, 1, n, u, 1));
        lemma_near_multiplied(f, 1, 8 * u, 1000, 1, b, u);
        assert(f * b * u == n) by (nonlinear_arith)
            requires
                n == f * (b * u),
        ;
        assert(1 * u == u);
        let bits = 8 * u * b;
        assert(bits > 0) by (nonlinear_arith)
            requires
                bits == 8 * u * b,
                u > 0,
                b > 0,
        ;
        assert(n >= 0);
        lemma_near_chain(k, n, u, bits, 1000, 1, 1);
        // Divided by the seconds.
        let s = secs.value();
        let span_units = nanos * u;
        assert(span_units > 0 && span_units <= wide() * wide() * u) by (nonlinear_arith)
            requires
                span_units == nanos * u,
                0 < nanos <= wide() * wide(),
                u > 0,
        ;
        assert(k * 200 >= u) by (nonlinear_arith)
            requires
                (k * 1000) * p >= (p - 3) * (bits * 1),
                bits == 8 * u * b,
                b >= 1,
                u > 0,
                p == 0x20_0000_0000_0000,
        {
            assert(bits >= 8 * u);
            assert((p - 3) * bits >= (p - 3) * (8 * u));
        }
        assert(k <= u * wide()) by (nonlinear_arith)
            requires
                (k * 1000) * p <= (p + 3) * (bits * 1),
                bits == 8 * u * b,
                b <= 0x20_0000_0000_0000,
                u > 0,
                p == 0x20_0000_0000_0000,
        {
            assert(bits <= 8 * u * 0x20_0000_0000_0000) by (nonlinear_arith)
                requires
                    bits == 8 * u * b,
                    b <= 0x20_0000_0000_0000,
                    u > 0,
            ;
            assert((p + 3) * bits <= (p + 3) * (8 * u * 0x20_0000_0000_0000));
        }
        assert(s <= span_units) by (nonlinear_arith)
            requires
                (s * g) * p <= (p + 3) * (span_units * 1),
                g == 1_000_000_000,
                p == 0x20_0000_0000_0000,
                span_units > 0,
        ;
        assert(span_units >= u) by (nonlinear_arith)
            requires
                span_units == nanos * u,
                nanos >= 1,
                u > 0,
        ;
        assert(s * 2_000_000_000 >= u) by (nonlinear_arith)
            requires
                (s * g) * p >= (p - 3) * (span_units * 1),
                g == 1_000_000_000,
                p == 0x20_0000_0000_0000,
                span_units >= u,
                u > 0,
        ;
        assert(EXPONENT_STEP * s <= k * u) by (nonlinear_arith)
            requires
                s <= wide() * wide() * u,
                k * 200 >= u,
                wide() * wide() * wide() * wide() * EXPONENT_STEP <= u,
                u > 0,
        {
            assert(EXPONENT_STEP * s <= EXPONENT_STEP * (wide() * wide() * u));
            assert(200 * (k * u) >= u * u);
            assert(u * u >= (wide() * wide() * wide() * wide() * EXPONENT_STEP) * u);
        }
        assert(k * u <= huge() * s) by (nonlinear_arith)
            requires
                k <= u * wide(),
                s * 2_000_000_000 >= u,
                u * wide() * wide() * wide() <= huge(),
                u > 0,
                s > 0,
        {
            assert(k * u <= (u * wide()) * u);
            assert((u * wide()) * u <= (u * wide()) * (s * 2_000_000_000));
            assert((u * wide() * wide() * wide()) * s <= huge() * s);
        }
        assert(s != 0 && size(s) == s);
        lemma_quotient_near(kbits, secs);
        let r = size(rate.value());
        assert(near(r, 1, k * u, s, 1));
        lemma_near_quotient(k, s, bits, 1000, span_units, g, 3, 3);
        assert(near(k, s, bits * g, 1000 * span_units, 7));
        lemma_near_multiplied(k, s, bits * g, 1000 * span_units, 7, u, 1);
        assert(k * u * 1 == k * u && s * 1 == s);
        let num = b * 8_000_000 * u;
        assert(bits * g * u == num * (1000 * u)) by (nonlinear_arith)
            requires
                bits == 8 * u * b,
                g == 1_000_000_000,
                num == b * 8_000_000 * u,
        ;
        assert(1000 * span_units == nanos * (1000 * u)) by (nonlinear_arith)
            requires
                span_units == nanos * u,
        ;
        assert((k * u) * 1 == k * u);
        lemma_near_scaled(k * u, s, num, nanos, 7, 1, 1000 * u);
        assert(num >= 0) by (nonlinear_arith)
            requires
                num == b * 8_000_000 * u,
                b >= 0,
                u > 0,
        ;
        assert(k * u >= 0) by (nonlinear_arith)
            requires
                k >= 0,
                u > 0,
        ;
        lemma_near_chain(r, k * u, s, num, nanos, 1, 7);
    }
}

/// Whether a direction is in a cooldown at `now`.
pub open spec fn in_cooldown(state: State, now: u128) -> bool {
    state.cooldown_until is Some && now < state.cooldown_until->0
}

/// What is made of a direction goes by the delay that counts, the threshold, the cooldown and
/// the load: a delay that is not positive leaves everything as it was; during a cooldown
/// nothing happens; a delay above the threshold is congestion, and begins a cooldown of the
/// configured length; a busy line without congestion is probed; any other is held.
pub proof fn law_status_follows_the_delay(before: State, after: State, limits: Limits, now: u128)
    requires
        calculated(before, after, limits, now),
        before.deltas@.len() > 0,
    ensures
        ({
            let delta = decisive(before);
            let positive = !delta.nan() && delta.value() > 0;
            let cooling = in_cooldown(before, now);
            let slow = !limits.delay_ms.nan() && delta.value() > limits.delay_ms.value();
            let fine = !limits.delay_ms.nan() && delta.value() <= limits.delay_ms.value();
            let busy = !after.load.nan() && !limits.high_load_level.nan() && after.load.value()
                > limits.high_load_level.value();
            &&& after.delta_stat == delta
            &&& after.current_rate == before.current_rate
            &&& after.current_bytes == before.current_bytes
            &&& after.previous_bytes == before.current_bytes
            &&& after.prev_t == now
            &&& after.deltas@ == before.deltas@
            &&& !positive ==> {
                &&& after.status == before.status
                &&& after.utilisation == before.utilisation
                &&& after.load == before.load
            }
            &&& positive && cooling ==> after.status == Status::Cooldown
            &&& positive && !cooling && slow ==> {
                &&& after.status == Status::Congestion
                &&& after.congestion_ceiling == after.utilisation
                &&& after.cooldown_until is Some
                &&& size(
                    (after.cooldown_until->0 - now) * unit() - limits.cooldown_secs.value()
                        * 1_000_000_000,
                ) * 2 <= unit()
            }
            &&& positive && !cooling && fine && busy ==> after.status == Status::Probing
            &&& positive && !cooling && fine && !busy ==> after.status == Status::Hold
            &&& positive && !cooling && limits.delay_ms.nan() ==> after.status == Status::Hold
            &&& !(positive && !cooling && slow) ==> {
                &&& after.cooldown_until == before.cooldown_until
                &&& after.congestion_ceiling == before.congestion_ceiling
            }
        }),
{
    let delta = decisive(before);
    lemma_value_order(delta, limits.delay_ms);
    assert(magnitude(0) == 0);
    if after.cooldown_until is Some {
        let t = after.cooldown_until->0 - now;
        let u = unit();
        assert((2 * t - 1) * u == 2 * (t * u) - u && (2 * t + 1) * u == 2 * (t * u) + u)
            by (nonlinear_arith);
    }
}

/// A whole rate within the limits is left as it is where the delay that counts is not
/// positive, during a cooldown, and where the line is neither slow nor busy.
pub proof fn law_rate_is_left_alone(before: State, after: State, limits: Limits, now: u128)
    requires
        calculated(before, after, limits, now),
        before.deltas@.len() > 0,
        decisive(before).nan() || decisive(before).value() <= 0 || after.status
            == Status::Cooldown || after.status == Status::Hold,
        before.current_rate.finite(),
        before.current_rate.value() % unit() == 0,
        limits.min_rate.nan() || limits.min_rate.value() <= before.current_rate.value(),
        limits.max_rate.nan() || limits.max_rate.value() <= 0 || limits.max_rate.value()
            >= before.current_rate.value(),
    ensures
        after.next_rate.finite(),
        after.next_rate.value() == before.current_rate.value(),
{
    lemma_value_order(decisive(before), limits.max_rate);
    lemma_value_order(before.current_rate, limits.max_rate);
    lemma_value_order(before.current_rate, limits.min_rate);
    assert(magnitude(0) == 0);
    let rate = clamped(before.current_rate, limits.min_rate, limits.max_rate);
    assert(rate.value() == before.current_rate.value());
    lemma_value_order(rate, before.current_rate);
    lemma_whole_order(before.current_rate.value(), after.next_rate.value());
}

/// The sum of two whole numbers that is at most two to the power 53.
proof fn lemma_whole_sum(x: Float64, y: Float64)
    requires
        x.finite(),
        y.finite(),
        x.value() >= 0,
        y.value() >= 0,
        x.value() % unit() == 0,
        y.value() % unit() == 0,
        x.value() + y.value() <= precision() * unit(),
    ensures
        x.plus(y).finite(),
        x.plus(y).value() == x.value() + y.value(),
{
    let u = unit();
    lemma_pow2_pos(1074);
    lemma_fundamental_div_mod(x.value(), u);
    lemma_fundamental_div_mod(y.value(), u);
    let a = x.value() / u;
    let b = y.value() / u;
    let exact = x.value() + y.value();
    assert(exact == (a + b) * u) by (nonlinear_arith)
        requires
            exact == u * a + u * b,
    ;
    assert(0 <= a + b <= precision()) by (nonlinear_arith)
        requires
            0 <= (a + b) * u <= precision() * u,
            u > 0,
    ;
    law_whole_numbers_are_exact(a + b);
    if exact == 0 {
        lemma_joined_value(x.negative() && y.negative(), 0);
        assert(magnitude(0) == 0);
    } else {
        assert(a + b != 0) by {
            assert(0 * u == 0);
        }
        assert(size(exact) == size(a + b) * u);
    }
}

/// Probing adds the step to the rate, exactly, where both are whole and the sum is within the
/// limits.
pub proof fn law_probing_adds_the_step(before: State, after: State, limits: Limits, now: u128)
    requires
        calculated(before, after, limits, now),
        before.deltas@.len() > 0,
        !decisive(before).nan(),
        decisive(before).value() > 0,
        after.status == Status::Probing,
        before.current_rate.finite(),
        before.current_rate.value() >= 0,
        before.current_rate.value() % unit() == 0,
        limits.increase_step.finite(),
        limits.increase_step.value() >= 0,
        limits.increase_step.value() % unit() == 0,
        before.current_rate.value() + limits.increase_step.value() <= precision() * unit(),
        limits.min_rate.nan() || limits.min_rate.value() <= before.current_rate.value()
            + limits.increase_step.value(),
        limits.max_rate.nan() || limits.max_rate.value() <= 0 || limits.max_rate.value()
            >= before.current_rate.value() + limits.increase_step.value(),
    ensures
        after.next_rate.finite(),
        after.next_rate.value() == before.current_rate.value() + limits.increase_step.value(),
{
    let rate = before.current_rate;
    let step = limits.increase_step;
    lemma_value_order(decisive(before), limits.max_rate);
    assert(magnitude(0) == 0);
    lemma_whole_sum(rate, step);
    let sum = rate.plus(step);
    lemma_pow2_pos(1074);
    lemma_fundamental_div_mod(rate.value(), unit());
    lemma_fundamental_div_mod(step.value(), unit());
    let q = rate.value() / unit() + step.value() / unit();
    assert(sum.value() == unit() * q) by (nonlinear_arith)
        requires
            sum.value() == unit() * (rate.value() / unit()) + unit() * (step.value() / unit()),
            q == rate.value() / unit() + step.value() / unit(),
    ;
    assert(sum.value() % unit() == 0) by {
        vstd::arithmetic::div_mod::lemma_mod_multiples_basic(q, unit());
        assert(unit() * q == q * unit()) by (nonlinear_arith);
    }
    lemma_value_order(sum, limits.max_rate);
    lemma_value_order(sum, limits.min_rate);
    let limited = clamped(sum, limits.min_rate, limits.max_rate);
    assert(limited.value() == sum.value());
    lemma_value_order(limited, sum);
    lemma_whole_order(sum.value(), after.next_rate.value());
}

/// 0.5 stands for half of one.
proof fn lemma_half()
    ensures
        ({
            let half = Float64 { bits: HALF };
            half.finite() && half.value() * 2 == unit()
        }),
{
    lemma_magnitude_split(1022, 0);
    lemma_pow2_adds(53, 1021);
    lemma2_to64_rest();
}

/// A cut goes to the configured share of the utilisation, or of half the rate where that is
/// more, up to the rounding of the doubles and to the next whole number below, and within the
/// limits.
pub proof fn law_cut_is_a_share(before: State, after: State, limits: Limits, now: u128)
    requires
        calculated(before, after, limits, now),
        before.deltas@.len() > 0,
        !decisive(before).nan(),
        decisive(before).value() > 0,
        after.status == Status::Congestion,
        after.utilisation.finite(),
        after.utilisation.value() <= wide() * unit(),
        before.current_rate.finite(),
        unit() <= before.current_rate.value() <= wide() * unit(),
        limits.decrease_multiplier.finite(),
        unit() <= limits.decrease_multiplier.value() * wide(),
        limits.decrease_multiplier.value() <= unit() * wide(),
        limits.min_rate.finite(),
        limits.max_rate.finite(),
    ensures
        ({
            let p = precision();
            let rate = before.current_rate.value();
            let used = after.utilisation.value();
            let twice = if 2 * used > rate {
                2 * used
            } else {
                rate
            };
            let exact = twice * limits.decrease_multiplier.value();
            let next = after.next_rate.value();
            &&& after.next_rate.finite()
            &&& next <= limits.min_rate.value() || next * (2 * unit()) * p <= (p + 3) * exact
            &&& (limits.max_rate.value() > 0 && next + unit() > limits.max_rate.value()) || (next
                + unit()) * (2 * unit()) * p >= (p - 3) * exact
        }),
{
    let u = unit();
    let p = precision();
    let rate = before.current_rate;
    let used = after.utilisation;
    let share = limits.decrease_multiplier;
    let m = share.value();
    lemma_value_order(decisive(before), limits.max_rate);
    assert(magnitude(0) == 0);
    lemma_pow2_pos(1074);
    lemma_unit_is_large();
    lemma_half();
    let h = Float64 { bits: HALF };
    let hv = h.value();
    let r = rate.value();
    assert(EXPONENT_STEP * u <= r * hv <= huge() * u) by (nonlinear_arith)
        requires
            u <= r <= wide() * u,
            hv * 2 == u,
            wide() * wide() * wide() * wide() * EXPONENT_STEP <= u,
            u * wide() * wide() * wide() <= huge(),
    {
        assert(2 * (r * hv) == r * u);
        assert(r * u >= u * u);
        assert(u * u >= (wide() * wide() * wide() * wide() * EXPONENT_STEP) * u);
        assert(r * u <= (wide() * u) * u);
        assert((wide() * u) * u <= huge() * u);
    }
    lemma_product_near(rate, h);
    let half = rate.times(h);
    let hr = half.value();
    assert(near(hr, 1, r * hv, u, 1));
    assert(used == utilisation_at(before, now));
    let base = used.larger(half);
    let b = base.value();
    let twice = if 2 * used.value() > r {
        2 * used.value()
    } else {
        r
    };
    // Twice the half is about the rate.
    assert((p - 1) * r <= 2 * hr * p <= (p + 1) * r) by (nonlinear_arith)
        requires
            (p - 1) * ((r * hv) * 1) <= (hr * u) * p,
            (hr * u) * p <= (p + 1) * ((r * hv) * 1),
            hv * 2 == u,
            hv > 0,
    {
        assert((hr * u) * p == (2 * hr * p) * hv);
        assert((p - 1) * ((r * hv) * 1) == ((p - 1) * r) * hv);
        assert((p + 1) * ((r * hv) * 1) == ((p + 1) * r) * hv);
    }
    let uv = used.value();
    assert(b == if uv < hr {
        hr
    } else {
        uv
    });
    assert((p - 1) * twice <= 2 * b * p <= (p + 1) * twice) by (nonlinear_arith)
        requires
            (p - 1) * r <= 2 * hr * p <= (p + 1) * r,
            b == if uv < hr {
                hr
            } else {
                uv
            },
            twice == if 2 * uv > r {
                2 * uv
            } else {
                r
            },
            p == 0x20_0000_0000_0000,
            r > 0,
    ;
    assert(2 * b >= u - u / 2) by (nonlinear_arith)
        requires
            (p - 1) * twice <= 2 * b * p,
            twice >= r,
            r >= u,
            u > 0,
            p == 0x20_0000_0000_0000,
    ;
    assert(b <= wide() * u * 2) by (nonlinear_arith)
        requires
            2 * b * p <= (p + 1) * twice,
            twice <= 2 * (wide() * u),
            p == 0x20_0000_0000_0000,
            wide() * u > 0,
    ;
    assert(EXPONENT_STEP * u <= b * m <= huge() * u) by (nonlinear_arith)
        requires
            2 * b >= u - u / 2,
            b <= wide() * u * 2,
            u <= m * wide(),
            m <= u * wide(),
            wide() * wide() * wide() * wide() * EXPONENT_STEP <= u,
            u * wide() * wide() * wide() <= huge(),
            u > 0,
    {
        assert(4 * b >= u);
        assert(b > 0 && m > 0);
        assert((4 * b) * (m * wide()) >= u * u);
        assert(u * u >= (wide() * wide() * wide() * wide() * EXPONENT_STEP) * u);
        assert(b * m <= (wide() * u * 2) * (u * wide()));
        assert((wide() * u * 2) * (u * wide()) <= (u * wide() * wide() * wide()) * u);
        assert((u * wide() * wide() * wide()) * u <= huge() * u);
    }
    assert(m > 0) by (nonlinear_arith)
        requires
            u <= m * wide(),
            u > 0,
    ;
    lemma_product_near(base, share);
    let wanted = base.times(share);
    let t = wanted.value();
    let exact = twice * m;
    assert(near(t, 1, b * m, u, 1));
    assert(near(b * m, u, exact, 2 * u, 1)) by {
        assert((p - 1) * (exact * u) <= (b * m) * (2 * u) * p <= (p + 1) * (exact * u))
            by (nonlinear_arith)
            requires
                (p - 1) * twice <= 2 * b * p <= (p + 1) * twice,
                exact == twice * m,
                m > 0,
                u > 0,
        {
            let f = m * u;
            assert((p - 1) * (exact * u) == ((p - 1) * twice) * f);
            assert((p + 1) * (exact * u) == ((p + 1) * twice) * f);
            assert((b * m) * (2 * u) * p == (2 * b * p) * f);
            assert(f > 0);
        }
    }
    assert(exact >= 0 && b * m >= 0) by (nonlinear_arith)
        requires
            exact == twice * m,
            twice > 0,
            m > 0,
            b > 0,
    ;
    lemma_near_chain(t, b * m, u, exact, 2 * u, 1, 1);
    assert((p - 3) * exact <= t * (2 * u) * p <= (p + 3) * exact);
    let limited = clamped(wanted, limits.min_rate, limits.max_rate);
    let next = after.next_rate.value();
    assert(next <= limited.value() < next + u);
    if limited.value() > limits.min_rate.value() {
        assert(next <= t);
        assert(next * (2 * u) * p <= t * (2 * u) * p) by (nonlinear_arith)
            requires
                next <= t,
                u > 0,
                p > 0,
        ;
    }
    if !(limits.max_rate.value() > 0 && next + u > limits.max_rate.value()) {
        assert(t <= next + u);
        assert((next + u) * (2 * u) * p >= t * (2 * u) * p) by (nonlinear_arith)
            requires
                t <= next + u,
                u > 0,
                p > 0,
        ;
    }
}

/// The load is the utilisation as a share of the current rate, up to the rounding of the
/// doubles.
pub proof fn law_load_is_a_share(before: State, after: State, limits: Limits, now: u128)
    requires
        calculated(before, after, limits, now),
        before.deltas@.len() > 0,
        !decisive(before).nan(),
        decisive(before).value() > 0,
        before.current_rate.finite(),
        unit() <= before.current_rate.value() <= wide() * unit(),
        after.utilisation.finite(),
        after.utilisation.value() == 0 || unit() <= size(after.utilisation.value()) * wide()
            * wide(),
        size(after.utilisation.value()) <= wide() * unit(),
    ensures
        after.load.finite(),
        after.load.value() < 0 <==> after.utilisation.value() < 0,
        near(
            size(after.load.value()),
            1,
            size(after.utilisation.value()) * unit(),
            before.current_rate.value(),
            1,
        ),
{
    let u = unit();
    let used = after.utilisation;
    let rate = before.current_rate;
    let r = rate.value();
    let a = size(used.value());
    lemma_value_order(decisive(before), decisive(before));
    assert(magnitude(0) == 0);
    lemma_pow2_pos(1074);
    lemma_unit_is_large();
    assert(after.load == used.divided_by(rate));
    if a == 0 {
        lemma_zero_results(used, rate);
        assert(0 * u == 0);
    } else {
        assert(EXPONENT_STEP * r <= a * u <= huge() * r) by (nonlinear_arith)
            requires
                u <= r <= wide() * u,
                u <= a * wide() * wide(),
                a <= wide() * u,
                wide() * wide() * wide() * wide() * EXPONENT_STEP <= u,
                u * wide() * wide() * wide() <= huge(),
                u > 0,
        {
            assert(EXPONENT_STEP * r <= EXPONENT_STEP * (wide() * u));
            assert((a * u) * (wide() * wide()) >= u * u);
            assert(u * u >= (wide() * wide() * wide() * wide() * EXPONENT_STEP) * u);
            assert((a * u) * (wide() * wide()) >= (EXPONENT_STEP * (wide() * u)) * (wide()
                * wide()));
            assert(a * u <= (wide() * u) * u);
            assert((wide() * u) * u <= (wide() * u) * r);
            assert((wide() * u) * r <= huge() * r);
        }
        lemma_quotient_near(used, rate);
    }
}

/// No time is no seconds.
proof fn lemma_no_seconds()
    ensures
        seconds_of(0).finite(),
        seconds_of(0).value() == 0,
{
    let zero = Float64::of_integer(0);
    let billion = Float64::of_integer(1_000_000_000);
    law_whole_numbers_are_exact(0);
    law_whole_numbers_are_exact(1_000_000_000);
    assert(0 * unit() == 0);
    lemma_pow2_pos(1074);
    let u = unit();
    let g = 1_000_000_000int;
    assert(g * u != 0) by (nonlinear_arith)
        requires
            u > 0,
            g > 0,
    ;
    lemma_zero_results(zero, billion);
    let part = zero.divided_by(billion);
    assert(0int / 1_000_000_000 == 0 && 0int % 1_000_000_000 == 0);
    assert(seconds_of(0) == zero.plus(part));
    lemma_joined_value(zero.negative() && part.negative(), 0);
    assert(magnitude(0) == 0);
}

/// How a length of time compares with a number of seconds.
proof fn lemma_seconds_order(nanos: int, secs: Float64)
    requires
        0 <= nanos <= LONGEST_SPAN,
        secs.finite(),
    ensures
        seconds_of(nanos).finite(),
        (precision() + 3) * (nanos * unit()) < secs.value() * 1_000_000_000 * precision()
            ==> seconds_of(nanos).value() < secs.value(),
        (precision() + 3) * (nanos * unit()) <= secs.value() * 1_000_000_000 * precision()
            ==> seconds_of(nanos).value() <= secs.value(),
        (precision() - 3) * (nanos * unit()) > secs.value() * 1_000_000_000 * precision()
            ==> seconds_of(nanos).value() > secs.value(),
        (precision() - 3) * (nanos * unit()) >= secs.value() * 1_000_000_000 * precision()
            ==> seconds_of(nanos).value() >= secs.value(),
{
    let n = nanos * unit();
    if nanos == 0 {
        lemma_no_seconds();
        assert(0 * unit() == 0);
    } else {
        law_seconds_are_near(nanos);
        assert(n * 1 == n);
    }
}

/// A double times two, where that is not too large.
proof fn lemma_doubled(x: Float64)
    requires
        x.finite(),
        size(x.value()) <= wide() * unit(),
    ensures
        x.times(Float64::of_integer(2)).finite(),
        x.times(Float64::of_integer(2)).value() == 2 * x.value(),
{
    let u = unit();
    let two = Float64::of_integer(2);
    let step = EXPONENT_STEP as int;
    let p = x.pattern();
    lemma_pow2_pos(1074);
    lemma_unit_is_large();
    law_whole_numbers_are_exact(2);
    lemma_value_order(x, two);
    lemma2_to64();
    let m = magnitude(p);
    assert(size(x.value()) == m);
    let q = if p < step {
        2 * p
    } else {
        p + step
    };
    assert(magnitude(q) == 2 * m) by {
        if p < step {
            if q >= step {
                lemma_magnitude_split(1, q - step);
                assert((step + (q - step)) * pow2(0) == q) by (nonlinear_arith)
                    requires
                        pow2(0) == 1,
                ;
            }
        } else {
            let e = p / step;
            let f = p % step;
            lemma_fundamental_div_mod(p, step);
            assert(q == (e + 1) * step + f) by (nonlinear_arith)
                requires
                    p == step * e + f,
                    q == p + step,
            ;
            assert(p == e * step + f);
            lemma_magnitude_split(e, f);
            lemma_magnitude_split(e + 1, f);
            lemma_pow2_adds(1, (e - 1) as nat);
            let w = pow2((e - 1) as nat) as int;
            assert((step + f) * (2 * w) == 2 * ((step + f) * w)) by (nonlinear_arith);
        }
    }
    assert(q < INFINITY_BITS) by {
        if q >= INFINITY_BITS {
            // The number would be huge.
            lemma_magnitude_split(1223, 0);
            lemma_pow2_adds(52, 1222);
            lemma2_to64_rest();
            lemma_magnitude_increases(1223 * step, INFINITY_BITS as int);
            if q > INFINITY_BITS {
                lemma_magnitude_increases(INFINITY_BITS as int, q);
            }
            assert(2 * (wide() * u) < huge()) by (nonlinear_arith)
                requires
                    u * wide() * wide() * wide() < huge(),
                    u > 0,
            ;
        }
    }
    assert(magnitude(q) * u == m * (2 * u)) by (nonlinear_arith)
        requires
            magnitude(q) == 2 * m,
    ;
    lemma_exact_is_nearest(m * (2 * u), u, q);
    lemma_joined_value(x.negative() != two.negative(), q);
    assert(!two.negative()) by {
        lemma_value_order(two, two);
    }
}

/// Whether `delta` tells by how much a recent delay exceeds its baseline: it is positive where
/// the recent delay is longer, negative where it is shorter, and is their difference up to
/// the rounding of the doubles.
pub open spec fn tells_excess(delta: Float64, recent: Float64, baseline: Float64) -> bool {
    recent.finite() && baseline.finite() && size(recent.value() - baseline.value()) <= huge()
        ==> {
        &&& delta.finite()
        &&& delta.value() > 0 <==> recent.value() > baseline.value()
        &&& delta.value() < 0 <==> recent.value() < baseline.value()
        &&& near(size(delta.value()), 1, size(recent.value() - baseline.value()), 1, 1)
    }
}

/// Whether a recent delay is no longer than its baseline.
pub open spec fn no_longer(recent: Float64, baseline: Float64) -> bool {
    &&& recent.finite()
    &&& baseline.finite()
    &&& recent.value() <= baseline.value()
    &&& baseline.value() - recent.value() <= huge()
}

/// How old the last reply is, in nanoseconds.
pub open spec fn age(stats: ReflectorStats, now: u128) -> int {
    if now > stats.last_receive_time_s {
        now - stats.last_receive_time_s
    } else {
        0
    }
}

/// Whether delays are known, and are less than two ticks old, whichever way the age is
/// rounded.
pub open spec fn surely_counts(
    reflector: IpAddr,
    baseline: Map<IpAddr, ReflectorStats>,
    recent: Map<IpAddr, ReflectorStats>,
    now: u128,
    tick: Float64,
) -> bool {
    &&& baseline.contains_key(reflector)
    &&& recent.contains_key(reflector)
    &&& (precision() + 3) * (age(recent[reflector], now) * unit()) < 2 * tick.value()
        * 1_000_000_000 * precision()
}

/// Whether delays are known, and may be less than two ticks old, depending on how the age is
/// rounded.
pub open spec fn may_count(
    reflector: IpAddr,
    baseline: Map<IpAddr, ReflectorStats>,
    recent: Map<IpAddr, ReflectorStats>,
    now: u128,
    tick: Float64,
) -> bool {
    &&& baseline.contains_key(reflector)
    &&& recent.contains_key(reflector)
    &&& (precision() - 3) * (age(recent[reflector], now) * unit()) < 2 * tick.value()
        * 1_000_000_000 * precision()
}

/// Whether the delays of a reflector count is decided by their age.
proof fn lemma_counting(
    reflector: IpAddr,
    baseline: Map<IpAddr, ReflectorStats>,
    recent: Map<IpAddr, ReflectorStats>,
    now: u128,
    config: Config,
)
    requires
        now <= LONGEST_SPAN,
        config.tick_interval.finite(),
        size(config.tick_interval.value()) <= wide() * unit(),
    ensures
        surely_counts(reflector, baseline, recent, now, config.tick_interval) ==> counts(
            reflector,
            baseline,
            recent,
            now,
            age_limit(config),
        ),
        counts(reflector, baseline, recent, now, age_limit(config)) ==> may_count(
            reflector,
            baseline,
            recent,
            now,
            config.tick_interval,
        ),
{
    lemma_doubled(config.tick_interval);
    let limit = age_limit(config);
    let a = age(recent[reflector], now);
    assert(a == span(now, recent[reflector].last_receive_time_s));
    lemma_seconds_order(a, limit);
}

/// What a filter keeps was there before.
proof fn lemma_filter_keeps(items: Seq<IpAddr>, keep: spec_fn(IpAddr) -> bool, i: int)
    requires
        0 <= i < items.filter(keep).len(),
    ensures
        items.contains(items.filter(keep)[i]),
        keep(items.filter(keep)[i]),
    decreases items.len(),
{
    reveal(Seq::filter);
    if items.len() > 0 {
        let shorter = items.drop_last().filter(keep);
        if i < shorter.len() {
            lemma_filter_keeps(items.drop_last(), keep, i);
            let at = choose|at: int|
                0 <= at < items.drop_last().len() && items.drop_last()[at] == shorter[i];
            assert(items[at] == shorter[i]);
        } else {
            assert(items[items.len() - 1] == items.last());
        }
    }
}

/// What a filter should keep is kept.
proof fn lemma_filter_has(items: Seq<IpAddr>, keep: spec_fn(IpAddr) -> bool, i: int) -> (at: int)
    requires
        0 <= i < items.len(),
        keep(items[i]),
    ensures
        0 <= at < items.filter(keep).len(),
        items.filter(keep)[at] == items[i],
    decreases items.len(),
{
    reveal(Seq::filter);
    if i == items.len() - 1 {
        items.filter(keep).len() - 1
    } else {
        assert(items.drop_last()[i] == items[i]);
        lemma_filter_has(items.drop_last(), keep, i)
    }
}

/// A filter that should keep everything does.
proof fn lemma_filter_all(items: Seq<IpAddr>, keep: spec_fn(IpAddr) -> bool)
    requires
        forall|i: int| 0 <= i < items.len() ==> keep(#[trigger] items[i]),
    ensures
        items.filter(keep) == items,
    decreases items.len(),
{
    reveal(Seq::filter);
    if items.len() > 0 {
        assert forall|i: int| 0 <= i < items.drop_last().len() implies keep(
            #[trigger] items.drop_last()[i],
        ) by {
            assert(items.drop_last()[i] == items[i]);
        }
        lemma_filter_all(items.drop_last(), keep);
        assert(keep(items[items.len() - 1]));
        assert(items == items.drop_last().push(items.last()));
    }
}

/// The difference of two delays tells the excess.
proof fn lemma_excess(recent: Float64, baseline: Float64)
    ensures
        tells_excess(recent.minus(baseline), recent, baseline),
{
    if recent.finite() && baseline.finite() && size(recent.value() - baseline.value()) <= huge() {
        law_differences_are_near(recent, baseline);
    }
}

/// The delay in `direction`.
pub open spec fn way(stats: ReflectorStats, direction: Direction) -> Float64 {
    if direction == Direction::Down {
        stats.down_ewma
    } else {
        stats.up_ewma
    }
}

/// The delays of `direction`.
pub open spec fn deltas_of(controller: Ratecontroller, direction: Direction) -> Seq<Float64> {
    if direction == Direction::Down {
        controller.state_dl.deltas@
    } else {
        controller.state_ul.deltas@
    }
}

/// Whether `delta` is what the delays of `reflector` tell.
pub open spec fn told_by(
    delta: Float64,
    reflector: IpAddr,
    direction: Direction,
    baseline: Map<IpAddr, ReflectorStats>,
    recent: Map<IpAddr, ReflectorStats>,
) -> bool {
    tells_excess(delta, way(recent[reflector], direction), way(baseline[reflector], direction))
}

/// Whether `delta` is what the delays of one of the reflectors tell, and these may count.
pub open spec fn told_by_one(
    delta: Float64,
    reflectors: Seq<IpAddr>,
    direction: Direction,
    baseline: Map<IpAddr, ReflectorStats>,
    recent: Map<IpAddr, ReflectorStats>,
    now: u128,
    tick: Float64,
) -> bool {
    exists|i: int|
        {
            &&& 0 <= i < reflectors.len()
            &&& #[trigger] may_count(reflectors[i], baseline, recent, now, tick)
            &&& told_by(delta, reflectors[i], direction, baseline, recent)
        }
}

/// Whether what the delays of `reflector` tell is among `deltas`.
pub open spec fn heard(
    reflector: IpAddr,
    deltas: Seq<Float64>,
    direction: Direction,
    baseline: Map<IpAddr, ReflectorStats>,
    recent: Map<IpAddr, ReflectorStats>,
) -> bool {
    exists|k: int|
        0 <= k < deltas.len() && #[trigger] told_by(
            deltas[k],
            reflector,
            direction,
            baseline,
            recent,
        )
}

/// After an update, each delay of a direction tells by how much the recent delay of some
/// reflector exceeds its baseline, and each reflector whose delays are known and less than
/// two ticks old has one. There are as many as there are reflectors where all of them count,
/// and they stand in ascending order.
pub proof fn law_delays_tell_the_excess(
    before: Ratecontroller,
    after: Ratecontroller,
    direction: Direction,
    reflectors: Seq<IpAddr>,
    baseline: Map<IpAddr, ReflectorStats>,
    recent: Map<IpAddr, ReflectorStats>,
    now: u128,
)
    requires
        after.updated(&before, reflectors, baseline, recent, now),
        now <= LONGEST_SPAN,
        before.config.tick_interval.finite(),
        size(before.config.tick_interval.value()) <= wide() * unit(),
    ensures
        ({
            let deltas = deltas_of(after, direction);
            let tick = before.config.tick_interval;
            &&& forall|k: int|
                0 <= k < deltas.len() ==> told_by_one(
                    #[trigger] deltas[k],
                    reflectors,
                    direction,
                    baseline,
                    recent,
                    now,
                    tick,
                )
            &&& forall|i: int|
                0 <= i < reflectors.len() && surely_counts(
                    #[trigger] reflectors[i],
                    baseline,
                    recent,
                    now,
                    tick,
                ) ==> heard(reflectors[i], deltas, direction, baseline, recent)
            &&& deltas.len() <= reflectors.len()
            &&& (forall|i: int|
                0 <= i < reflectors.len() ==> surely_counts(
                    #[trigger] reflectors[i],
                    baseline,
                    recent,
                    now,
                    tick,
                )) ==> deltas.len() == reflectors.len()
            &&& forall|k: int, l: int|
                0 <= k <= l < deltas.len() ==> deltas[k].rank() <= deltas[l].rank()
        }),
{
    let config = before.config;
    let deltas = deltas_of(after, direction);
    let limit = age_limit(config);
    let tick = config.tick_interval;
    let keep = |r: IpAddr| counts(r, baseline, recent, now, limit);
    let kept = reflectors.filter(keep);
    let found = excess(reflectors, baseline, recent, now, limit, direction);
    law_sorting_keeps_items(found, deltas);
    reflectors.lemma_filter_len(keep);
    assert(found.len() == kept.len());
    assert forall|k: int| 0 <= k < deltas.len() implies told_by_one(
        #[trigger] deltas[k],
        reflectors,
        direction,
        baseline,
        recent,
        now,
        tick,
    ) by {
        let d = deltas[k];
        vstd::seq_lib::to_multiset_contains(deltas, d);
        vstd::seq_lib::to_multiset_contains(found, d);
        let at = choose|at: int| 0 <= at < found.len() && found[at] == d;
        lemma_filter_keeps(reflectors, keep, at);
        let r = kept[at];
        let i = choose|i: int| 0 <= i < reflectors.len() && reflectors[i] == r;
        lemma_counting(r, baseline, recent, now, config);
        lemma_excess(way(recent[r], direction), way(baseline[r], direction));
        assert(may_count(reflectors[i], baseline, recent, now, tick));
        assert(told_by(d, reflectors[i], direction, baseline, recent));
    }
    assert forall|i: int|
        0 <= i < reflectors.len() && surely_counts(
            #[trigger] reflectors[i],
            baseline,
            recent,
            now,
            tick,
        ) implies heard(reflectors[i], deltas, direction, baseline, recent) by {
        let r = reflectors[i];
        lemma_counting(r, baseline, recent, now, config);
        let at = lemma_filter_has(reflectors, keep, i);
        let d = found[at];
        lemma_excess(way(recent[r], direction), way(baseline[r], direction));
        vstd::seq_lib::to_multiset_contains(found, d);
        vstd::seq_lib::to_multiset_contains(deltas, d);
        assert(found.contains(d));
        let k = choose|k: int| 0 <= k < deltas.len() && deltas[k] == d;
        assert(told_by(deltas[k], r, direction, baseline, recent));
    }
    if forall|i: int|
        0 <= i < reflectors.len() ==> surely_counts(
            #[trigger] reflectors[i],
            baseline,
            recent,
            now,
            tick,
        ) {
        assert forall|i: int| 0 <= i < reflectors.len() implies keep(#[trigger] reflectors[i]) by {
            lemma_counting(reflectors[i], baseline, recent, now, config);
        }
        lemma_filter_all(reflectors, keep);
    }
    assert forall|k: int, l: int| 0 <= k <= l < deltas.len() implies deltas[k].rank()
        <= deltas[l].rank() by {
        assert(deltas[k].key() <= deltas[l].key());
    }
}

/// The state of `direction`.
pub open spec fn state_of(controller: Ratecontroller, direction: Direction) -> State {
    if direction == Direction::Down {
        controller.state_dl
    } else {
        controller.state_ul
    }
}

/// Where no recent delay is longer than its baseline, the line is not taken to be slow: the
/// rate is not cut, and no cooldown begins.
pub proof fn law_quick_line_is_not_cut(
    before: Ratecontroller,
    mid: Ratecontroller,
    after: State,
    direction: Direction,
    reflectors: Seq<IpAddr>,
    baseline: Map<IpAddr, ReflectorStats>,
    recent: Map<IpAddr, ReflectorStats>,
    limits: Limits,
    now: u128,
    later: u128,
)
    requires
        mid.updated(&before, reflectors, baseline, recent, now),
        now <= LONGEST_SPAN,
        before.config.tick_interval.finite(),
        size(before.config.tick_interval.value()) <= wide() * unit(),
        deltas_of(mid, direction).len() > 0,
        calculated(state_of(mid, direction), after, limits, later),
        forall|i: int|
            0 <= i < reflectors.len() && baseline.contains_key(#[trigger] reflectors[i])
                && recent.contains_key(reflectors[i]) ==> no_longer(
                way(recent[reflectors[i]], direction),
                way(baseline[reflectors[i]], direction),
            ),
    ensures
        after.status == state_of(mid, direction).status,
        after.cooldown_until == state_of(mid, direction).cooldown_until,
        after.utilisation == state_of(mid, direction).utilisation,
{
    law_delays_tell_the_excess(before, mid, direction, reflectors, baseline, recent, now);
    let state = state_of(mid, direction);
    law_status_follows_the_delay(state, after, limits, later);
    let deltas = state.deltas@;
    let k = if deltas.len() >= 3 {
        2int
    } else {
        0int
    };
    let tick = before.config.tick_interval;
    assert(told_by_one(deltas[k], reflectors, direction, baseline, recent, now, tick));
    let i = choose|i: int|
        {
            &&& 0 <= i < reflectors.len()
            &&& #[trigger] may_count(reflectors[i], baseline, recent, now, tick)
            &&& told_by(deltas[k], reflectors[i], direction, baseline, recent)
        };
    assert(no_longer(
        way(recent[reflectors[i]], direction),
        way(baseline[reflectors[i]], direction),
    ));
    assert(decisive(state) == deltas[k]);
}

/// The controller begins at 95 % of the base rate, up to the rounding of the doubles.
pub proof fn law_starts_at_95_percent(base: Float64)
    requires
        base.finite(),
        unit() <= base.value() <= wide() * unit(),
    ensures
        starting_rate(base).finite(),
        near(starting_rate(base).value(), 1, 19 * base.value(), 20, 3),
{
    let u = unit();
    let p = precision();
    let share = Float64 { bits: NINETY_FIVE_PERCENT };
    lemma_pow2_pos(1074);
    lemma_unit_is_large();
    lemma2_to64_rest();
    lemma_pow2_adds(53, 1021);
    lemma_pow2_pos(1021);
    let w = pow2(1021) as int;
    lemma_magnitude_split(1022, 0xE_6666_6666_6666);
    let c = share.value();
    assert(c == 0x1E_6666_6666_6666 * w);
    assert(u == 0x20_0000_0000_0000 * w);
    let b = base.value();
    assert((p - 1) * (19 * u) <= (c * 20) * p <= (p + 1) * (19 * u)) by (nonlinear_arith)
        requires
            c == 0x1E_6666_6666_6666 * w,
            u == 0x20_0000_0000_0000 * w,
            p == 0x20_0000_0000_0000,
            w > 0,
    ;
    assert(EXPONENT_STEP * u <= b * c <= huge() * u) by (nonlinear_arith)
        requires
            u <= b <= wide() * u,
            c <= u,
            2 * c >= u,
            wide() * wide() * wide() * wide() * EXPONENT_STEP <= u,
            u * wide() * wide() * wide() <= huge(),
            u > 0,
    {
        assert(2 * (b * c) >= u * u);
        assert(u * u >= (wide() * wide() * wide() * wide() * EXPONENT_STEP) * u);
        assert(b * c <= (wide() * u) * u);
        assert((wide() * u) * u <= huge() * u);
    }
    lemma_product_near(base, share);
    let r = starting_rate(base).value();
    assert(near(r, 1, b * c, u, 1));
    assert(near(b * c, u, 19 * b, 20, 1)) by {
        assert((p - 1) * ((19 * b) * u) <= ((b * c) * 20) * p <= (p + 1) * ((19 * b) * u))
            by (nonlinear_arith)
            requires
                (p - 1) * (19 * u) <= (c * 20) * p <= (p + 1) * (19 * u),
                b > 0,
        {
            assert((p - 1) * ((19 * b) * u) == ((p - 1) * (19 * u)) * b);
            assert((p + 1) * ((19 * b) * u) == ((p + 1) * (19 * u)) * b);
            assert(((b * c) * 20) * p == ((c * 20) * p) * b);
        }
    }
    assert(b * c >= 0) by (nonlinear_arith)
        requires
            b > 0,
            c > 0,
    ;
    lemma_near_chain(r, b * c, u, 19 * b, 20, 1, 1);
}

/// The rates are looked at again when more than the configured interval has passed since they
/// were set, and not before, up to the rounding of the doubles.
pub proof fn law_waits_for_the_interval(
    before: Ratecontroller,
    after: Ratecontroller,
    mid: Ratecontroller,
    action: Result<Action, RatecontrolError>,
    now: u128,
)
    requires
        after.follows(&before, Event::Woke { now }, &mid, action),
        now <= LONGEST_SPAN,
        before.config.min_change_interval.finite(),
    ensures
        ({
            let nanos = if now > before.lastchg_t {
                now - before.lastchg_t
            } else {
                0
            };
            let interval = before.config.min_change_interval.value() * 1_000_000_000 * precision();
            &&& action is Ok
            &&& (precision() - 3) * (nanos * unit()) > interval ==> action->Ok_0
                == Action::ReadStats
            &&& (precision() + 3) * (nanos * unit()) <= interval ==> action->Ok_0 == Action::Sleep
            &&& action->Ok_0 == Action::ReadStats || action->Ok_0 == Action::Sleep
            &&& after.woke_t == now
            &&& after.lastchg_t == before.lastchg_t
            &&& after.state_dl == before.state_dl
            &&& after.state_ul == before.state_ul
        }),
{
    let nanos = if now > before.lastchg_t {
        now - before.lastchg_t
    } else {
        0
    };
    assert(nanos == span(now, before.lastchg_t));
    lemma_seconds_order(nanos, before.config.min_change_interval);
}

/// The controller sleeps for the configured interval, to the nanosecond.
pub proof fn law_sleeps_for_the_interval(config: Config, nanos: int)
    requires
        pause_secs(config).lasts(nanos),
    ensures
        size(nanos * unit() - config.min_change_interval.value() * 1_000_000_000) * 2 <= unit(),
{
    let u = unit();
    assert((2 * nanos - 1) * u == 2 * (nanos * u) - u && (2 * nanos + 1) * u == 2 * (nanos * u) + u)
        by (nonlinear_arith);
}

/// The counter that is kept for a direction is the one that was named for it when the
/// controller was made: the first of the two that the kernel gives is what was received, the
/// second what was sent. Where it is -1 in either direction, the round is left out.
pub proof fn law_counters_are_kept(
    before: Ratecontroller,
    after: Ratecontroller,
    mid: Ratecontroller,
    action: Result<Action, RatecontrolError>,
    down: (i128, i128),
    up: (i128, i128),
)
    requires
        after.follows(&before, Event::Stats { down: Ok(down), up: Ok(up) }, &mid, action),
    ensures
        before.down_direction == StatsDirection::RX ==> after.state_dl.current_bytes == down.0,
        before.down_direction == StatsDirection::TX ==> after.state_dl.current_bytes == down.1,
        before.up_direction == StatsDirection::RX ==> after.state_ul.current_bytes == up.0,
        before.up_direction == StatsDirection::TX ==> after.state_ul.current_bytes == up.1,
        action is Ok,
        after.state_dl.current_bytes == -1 || after.state_ul.current_bytes == -1
            ==> action->Ok_0 == Action::Sleep,
        after.state_dl.current_bytes != -1 && after.state_ul.current_bytes != -1
            ==> action->Ok_0 == Action::CollectDelays,
        after.state_dl.previous_bytes == before.state_dl.previous_bytes,
        after.state_ul.previous_bytes == before.state_ul.previous_bytes,
        after.state_dl.current_rate == before.state_dl.current_rate,
        after.state_ul.current_rate == before.state_ul.current_rate,
        after.lastchg_t == before.lastchg_t,
{
}

/// Where the counters of an interface cannot be read, the error is handed on, that of the
/// download interface before that of the upload interface, and nothing changes.
pub proof fn law_unreadable_counters_are_an_error(
    before: Ratecontroller,
    after: Ratecontroller,
    mid: Ratecontroller,
    action: Result<Action, RatecontrolError>,
    down: Result<(i128, i128), NetlinkError>,
    up: Result<(i128, i128), NetlinkError>,
)
    requires
        after.follows(&before, Event::Stats { down, up }, &mid, action),
        down is Err || up is Err,
    ensures
        action is Err,
        down is Err ==> action->Err_0 == RatecontrolError::Netlink(down->Err_0),
        down is Ok ==> action->Err_0 == RatecontrolError::Netlink(up->Err_0),
        after == before,
{
}

/// Where no reflector has delays that count, each rate drops to the smallest of its own
/// direction, and the shapers are told so. Other reflectors are asked for where there are any
/// reflectors at all.
pub proof fn law_silence_drops_the_rates(
    before: Ratecontroller,
    after: Ratecontroller,
    mid: Ratecontroller,
    action: Result<Action, RatecontrolError>,
    reflectors: &Vec<IpAddr>,
    baseline: &AddrMap<ReflectorStats>,
    recent: &AddrMap<ReflectorStats>,
    now: u128,
)
    requires
        after.follows(
            &before,
            Event::Delays { reflectors, baseline, recent, now },
            &mid,
            action,
        ),
        now <= LONGEST_SPAN,
        before.config.tick_interval.finite(),
        size(before.config.tick_interval.value()) <= wide() * unit(),
        before.config.download_min_kbits.finite(),
        0 <= before.config.download_min_kbits.value() < wide() * unit(),
        before.config.upload_min_kbits.finite(),
        0 <= before.config.upload_min_kbits.value() < wide() * unit(),
        forall|i: int|
            0 <= i < reflectors@.len() ==> !may_count(
                #[trigger] reflectors@[i],
                baseline@,
                recent@,
                now,
                before.config.tick_interval,
            ),
    ensures
        after.state_dl.current_rate == before.config.download_min_kbits,
        after.state_ul.current_rate == before.config.upload_min_kbits,
        action is Ok,
        action->Ok_0 == (Action::Drop {
            download: (before.config.download_min_kbits.value() / unit()) as u64,
            upload: (before.config.upload_min_kbits.value() / unit()) as u64,
            reselect: reflectors@.len() > 0,
        }),
        after.lastchg_t == before.lastchg_t,
{
    let tick = before.config.tick_interval;
    law_delays_tell_the_excess(
        before,
        after,
        Direction::Down,
        reflectors@,
        baseline@,
        recent@,
        now,
    );
    let deltas = after.state_dl.deltas@;
    if deltas.len() > 0 {
        assert(told_by_one(
            deltas[0],
            reflectors@,
            Direction::Down,
            baseline@,
            recent@,
            now,
            tick,
        ));
    }
    lemma_below_wide(before.config.download_min_kbits.value());
    lemma_below_wide(before.config.upload_min_kbits.value());
    lemma_value_order(before.config.download_min_kbits, before.config.upload_min_kbits);
}

/// What is less than two to the power 64 fits a `u64`.
proof fn lemma_below_wide(v: int)
    requires
        0 <= v < wide() * unit(),
    ensures
        0 <= v / unit() <= u64::MAX,
{
    let u = unit();
    lemma_pow2_pos(1074);
    lemma_fundamental_div_mod(v, u);
    let q = v / u;
    assert(0 <= q < wide()) by (nonlinear_arith)
        requires
            0 <= v < wide() * u,
            v == u * q + v % u,
            0 <= v % u < u,
            u > 0,
    ;
}

/// Where some delays count, the round goes on, with the rates as they are. Other reflectors
/// are asked for where fewer than three delays count, and fewer than there are reflectors.
pub proof fn law_known_delays_go_on(
    before: Ratecontroller,
    after: Ratecontroller,
    mid: Ratecontroller,
    action: Result<Action, RatecontrolError>,
    reflectors: &Vec<IpAddr>,
    baseline: &AddrMap<ReflectorStats>,
    recent: &AddrMap<ReflectorStats>,
    now: u128,
)
    requires
        after.follows(
            &before,
            Event::Delays { reflectors, baseline, recent, now },
            &mid,
            action,
        ),
        now <= LONGEST_SPAN,
        before.config.tick_interval.finite(),
        size(before.config.tick_interval.value()) <= wide() * unit(),
        after.state_dl.deltas@.len() > 0,
    ensures
        action is Ok,
        action->Ok_0 is ReadClock,
        (forall|i: int|
            0 <= i < reflectors@.len() ==> surely_counts(
                #[trigger] reflectors@[i],
                baseline@,
                recent@,
                now,
                before.config.tick_interval,
            )) ==> action->Ok_0 == (Action::ReadClock { reselect: false }),
        action->Ok_0 == (Action::ReadClock {
            reselect: after.state_dl.deltas@.len() < 3 && after.state_dl.deltas@.len()
                < reflectors@.len(),
        }),
        after.state_dl.current_rate == before.state_dl.current_rate,
        after.state_ul.current_rate == before.state_ul.current_rate,
        after.state_dl.cooldown_until == before.state_dl.cooldown_until,
        after.state_ul.cooldown_until == before.state_ul.cooldown_until,
{
    law_delays_tell_the_excess(
        before,
        after,
        Direction::Down,
        reflectors@,
        baseline@,
        recent@,
        now,
    );
}

/// Each rate is calculated by the settings of its own direction and at its own time, is then
/// in force, and is told to its own shaper where it is another number than before. The rates
/// count as set at the time of waking.
pub proof fn law_each_direction_by_itself(
    before: Ratecontroller,
    after: Ratecontroller,
    mid: Ratecontroller,
    action: Result<Action, RatecontrolError>,
    down: u128,
    up: u128,
)
    requires
        after.follows(&before, Event::Timed { down, up }, &mid, action),
    ensures
        calculated(
            before.state_dl,
            mid.state_dl,
            (Limits {
                delay_ms: before.config.download_delay_ms,
                min_rate: before.config.download_min_kbits,
                max_rate: before.config.download_max_kbits,
                high_load_level: before.config.high_load_level,
                increase_step: before.config.increase_step_kbits,
                decrease_multiplier: before.config.decrease_multiplier,
                cooldown_secs: before.config.cooldown_secs,
            }),
            down,
        ),
        calculated(
            before.state_ul,
            mid.state_ul,
            (Limits {
                delay_ms: before.config.upload_delay_ms,
                min_rate: before.config.upload_min_kbits,
                max_rate: before.config.upload_max_kbits,
                high_load_level: before.config.high_load_level,
                increase_step: before.config.increase_step_kbits,
                decrease_multiplier: before.config.decrease_multiplier,
                cooldown_secs: before.config.cooldown_secs,
            }),
            up,
        ),
        after.state_dl.current_rate == mid.state_dl.next_rate,
        after.state_ul.current_rate == mid.state_ul.next_rate,
        after.state_dl.status == mid.state_dl.status,
        after.state_ul.status == mid.state_ul.status,
        after.state_dl.cooldown_until == mid.state_dl.cooldown_until,
        after.state_ul.cooldown_until == mid.state_ul.cooldown_until,
        after.state_dl.previous_bytes == before.state_dl.current_bytes,
        after.state_ul.previous_bytes == before.state_ul.current_bytes,
        after.lastchg_t == before.woke_t,
        action is Ok,
        action->Ok_0 is Apply,
        is_told(
            action->Ok_0->Apply_download,
            before.state_dl.current_rate,
            after.state_dl.current_rate,
        ),
        is_told(
            action->Ok_0->Apply_upload,
            before.state_ul.current_rate,
            after.state_ul.current_rate,
        ),
{
    lemma_told(mid.state_dl);
    lemma_told(mid.state_ul);
}

/// Whether a shaper is told the new rate, without its fraction, exactly where the rate has
/// changed.
pub open spec fn is_told(told: Option<u64>, before: Float64, after: Float64) -> bool {
    before.finite() && after.finite() && 0 <= after.value() < wide() * unit() ==> match told {
        Some(rate) => {
            &&& after.value() != before.value()
            &&& rate * unit() <= after.value() < (rate + 1) * unit()
        },
        None => after.value() == before.value(),
    }
}

/// What a shaper is told of a calculated rate.
proof fn lemma_told(state: State)
    ensures
        is_told(change(state), state.current_rate, state.next_rate),
{
    let after = state.next_rate;
    if state.current_rate.finite() && after.finite() && 0 <= after.value() < wide() * unit() {
        let u = unit();
        let v = after.value();
        lemma_below_wide(v);
        lemma_pow2_pos(1074);
        lemma_fundamental_div_mod(v, u);
        let q = v / u;
        assert(q * u <= v < (q + 1) * u) by (nonlinear_arith)
            requires
                v == u * q + v % u,
                0 <= v % u < u,
        ;
    }
}

} // verus!
