//! What the reflector selector promises, in terms of what goes into it and what comes out.
use crate::address::IpAddr;
use crate::arithmetic::size;
use crate::config::Config;
use crate::float64::{lemma_magnitude_split, lemma_value_order, unit, Float64, EXPONENT_STEP};
use crate::pinger::ReflectorStats;
use crate::precision::{
    huge, law_sums_are_near, lemma_product_near, lemma_unit_is_large, near, precision, wide,
};
use crate::reflector_selector::{
    at_most, baseline_secs, can_shuffle, candidates_of, chosen, exchanged, gathered,
    law_shuffling_keeps_items, penalties_after, penalty, shuffled, Candidate, Draw, Failures,
    Reading, DRAWS, PI,
};
use vstd::arithmetic::div_mod::lemma_fundamental_div_mod;
use vstd::arithmetic::power2::{
    lemma2_to64, lemma2_to64_rest, lemma_pow2_adds, lemma_pow2_pos, pow2,
};
use vstd::prelude::*;

verus! {

/// The first failure costs five minutes, the second half an hour, the third an hour; from
/// then on each one costs twice as much as the one before, up to 12 hours.
pub proof fn law_penalties_double(fails: u32)
    requires
        fails < u32::MAX,
    ensures
        fails == 0 ==> penalty(fails) == 0 && penalty((fails + 1) as u32) == 300,
        fails == 2 ==> penalty(fails) == 1800 && penalty((fails + 1) as u32) == 3600,
        fails >= 3 ==> penalty((fails + 1) as u32) == if 2 * penalty(fails) < 43_200 {
            2 * penalty(fails)
        } else {
            43_200
        },
{
    lemma2_to64();
    if fails >= 3 {
        lemma_pow2_adds(1, (fails - 3) as nat);
    }
}

/// A reflector that is drawn when its penalty is over, or when it has none, is among the peers
/// afterwards.
pub proof fn law_free_reflectors_join(
    peers: Seq<IpAddr>,
    pool: Seq<IpAddr>,
    penalties: Map<IpAddr, Failures>,
    draws: Seq<Draw>,
    k: int,
)
    requires
        0 <= k < draws.len(),
        ({
            let drawn = pool[draws[k].index as int];
            penalties.contains_key(drawn) ==> draws[k].now >= penalties[drawn].last_check_time
                + penalty(penalties[drawn].count) * 1_000_000_000
        }),
    ensures
        gathered(peers, pool, penalties, draws).contains(pool[draws[k].index as int]),
    decreases draws.len(),
{
    let shorter = draws.drop_last();
    let earlier = gathered(peers, pool, penalties, shorter);
    let all = gathered(peers, pool, penalties, draws);
    let drawn = pool[draws[k].index as int];
    let last = draws[draws.len() - 1];
    assert(draws.last() == last);
    if penalties.contains_key(drawn) {
        crate::reflector_selector::law_penalty_grows_to_a_limit(0, penalties[drawn].count);
    }
    if k < draws.len() - 1 {
        assert(shorter[k] == draws[k]);
        law_free_reflectors_join(peers, pool, penalties, shorter, k);
        let at = choose|at: int| 0 <= at < earlier.len() && earlier[at] == drawn;
        assert(all[at] == drawn);
    } else if earlier.contains(drawn) {
        assert(all == earlier);
    } else {
        assert(all == earlier.push(drawn));
        assert(all[earlier.len() as int] == drawn);
    }
}

/// One reselection draws twenty reflectors: where these are all different, free and no peers
/// yet, twenty join.
pub proof fn law_twenty_can_join(
    peers: Seq<IpAddr>,
    pool: Seq<IpAddr>,
    penalties: Map<IpAddr, Failures>,
    draws: Seq<Draw>,
)
    requires
        draws.len() == DRAWS,
        forall|k: int|
            0 <= k < draws.len() ==> !penalties.contains_key(
                pool[(#[trigger] draws[k]).index as int],
            ) && !peers.contains(pool[draws[k].index as int]),
        forall|k: int, l: int|
            0 <= k < l < draws.len() ==> pool[(#[trigger] draws[k]).index as int]
                != pool[(#[trigger] draws[l]).index as int],
    ensures
        gathered(peers, pool, penalties, draws).len() == peers.len() + 20,
{
    lemma_all_join(peers, pool, penalties, draws);
}

/// Where all that are drawn are different, free and no peers yet, all join.
proof fn lemma_all_join(
    peers: Seq<IpAddr>,
    pool: Seq<IpAddr>,
    penalties: Map<IpAddr, Failures>,
    draws: Seq<Draw>,
)
    requires
        forall|k: int|
            0 <= k < draws.len() ==> !penalties.contains_key(
                pool[(#[trigger] draws[k]).index as int],
            ) && !peers.contains(pool[draws[k].index as int]),
        forall|k: int, l: int|
            0 <= k < l < draws.len() ==> pool[(#[trigger] draws[k]).index as int]
                != pool[(#[trigger] draws[l]).index as int],
    ensures
        gathered(peers, pool, penalties, draws) == peers + Seq::new(
            draws.len(),
            |k: int| pool[draws[k].index as int],
        ),
    decreases draws.len(),
{
    let drawn = Seq::new(draws.len(), |k: int| pool[draws[k].index as int]);
    if draws.len() == 0 {
        assert(peers + drawn == peers);
    } else {
        let shorter = draws.drop_last();
        assert forall|k: int| 0 <= k < shorter.len() implies !penalties.contains_key(
            pool[(#[trigger] shorter[k]).index as int],
        ) && !peers.contains(pool[shorter[k].index as int]) by {
            assert(shorter[k] == draws[k]);
        }
        assert forall|k: int, l: int| 0 <= k < l < shorter.len() implies pool[(
        #[trigger] shorter[k]).index as int] != pool[(#[trigger] shorter[l]).index as int] by {
            assert(shorter[k] == draws[k] && shorter[l] == draws[l]);
        }
        lemma_all_join(peers, pool, penalties, shorter);
        let n = draws.len() - 1;
        let before = Seq::new(shorter.len(), |k: int| pool[shorter[k].index as int]);
        let last = pool[draws[n].index as int];
        assert(draws.last() == draws[n]);
        let earlier = peers + before;
        assert(!earlier.contains(last)) by {
            if earlier.contains(last) {
                let at = choose|at: int| 0 <= at < earlier.len() && earlier[at] == last;
                if at < peers.len() {
                    assert(peers[at] == last);
                } else {
                    let k = at - peers.len();
                    assert(before[k] == pool[draws[k].index as int]);
                    assert(draws[k] == shorter[k]);
                }
            }
        }
        assert(earlier.push(last) == peers + drawn);
    }
}

/// Whether a peer has answered within the 30 seconds before `now`.
pub open spec fn answered_lately(
    recent: Map<IpAddr, ReflectorStats>,
    peer: IpAddr,
    now: u128,
) -> bool {
    recent.contains_key(peer) && now < recent[peer].last_receive_time_s + 30_000_000_000
}

/// One peer more is looked at: where it has answered lately, it becomes a candidate, behind
/// those before it, and its failures are forgotten. Where it has not, its failures are one
/// more, from now on, except within ten seconds of the last one. Nothing changes for others.
pub proof fn law_one_peer_more(
    penalties: Map<IpAddr, Failures>,
    recent: Map<IpAddr, ReflectorStats>,
    peers: Seq<IpAddr>,
    readings: Seq<Reading>,
    n: int,
)
    requires
        0 <= n < peers.len(),
    ensures
        ({
            let peer = peers[n];
            let reading = readings[n];
            let before = penalties_after(penalties, recent, peers, readings, n);
            let after = penalties_after(penalties, recent, peers, readings, n + 1);
            let found = candidates_of(recent, peers, readings, n);
            let more = candidates_of(recent, peers, readings, n + 1);
            &&& forall|other: IpAddr|
                other != peer ==> {
                    &&& #[trigger] after.contains_key(other) == before.contains_key(other)
                    &&& before.contains_key(other) ==> after[other] == before[other]
                }
            &&& if answered_lately(recent, peer, reading.reply) {
                &&& !after.contains_key(peer)
                &&& more.len() == found.len() + 1
                &&& more.take(found.len() as int) == found
                &&& more.last().address == peer
                &&& takes(more.last().rtt, recent[peer])
            } else {
                &&& more == found
                &&& after.contains_key(peer)
                &&& !before.contains_key(peer) ==> after[peer].count == 1
                    && after[peer].last_check_time == reading.noted
                &&& before.contains_key(peer) && reading.failure < before[peer].last_check_time
                    + 10_000_000_000 ==> after[peer] == before[peer]
                &&& before.contains_key(peer) && reading.failure >= before[peer].last_check_time
                    + 10_000_000_000 ==> {
                    &&& after[peer].last_check_time == reading.noted
                    &&& before[peer].count < u32::MAX ==> after[peer].count
                        == before[peer].count + 1
                }
            }
        }),
{
    let found = candidates_of(recent, peers, readings, n);
    let more = candidates_of(recent, peers, readings, n + 1);
    if answered_lately(recent, peers[n], readings[n].reply) {
        assert(more.take(found.len() as int) == found);
        lemma_takes(recent[peers[n]]);
    }
}

/// Whether `rtt` is the delay there and back without its fraction, up to the rounding of the
/// doubles.
pub open spec fn takes(rtt: u64, stats: ReflectorStats) -> bool {
    let sum = stats.down_ewma.value() + stats.up_ewma.value();
    stats.down_ewma.finite() && stats.up_ewma.finite() && -huge() <= sum ==> {
        &&& sum <= 0 ==> rtt == 0
        &&& 0 < sum <= 0x8000_0000_0000_0000 * unit() ==> {
            &&& rtt * unit() * precision() <= (precision() + 1) * sum
            &&& (rtt + 1) * unit() * precision() >= (precision() - 1) * sum
        }
    }
}

/// The delay there and back.
proof fn lemma_takes(stats: ReflectorStats)
    ensures
        takes(stats.down_ewma.plus(stats.up_ewma).truncated() as u64, stats),
{
    let u = unit();
    let p = precision();
    let exact = stats.down_ewma.value() + stats.up_ewma.value();
    let sum = stats.down_ewma.plus(stats.up_ewma);
    lemma_pow2_pos(1074);
    lemma_unit_is_large();
    if stats.down_ewma.finite() && stats.up_ewma.finite() && -huge() <= exact && exact
        <= 0x8000_0000_0000_0000 * u {
        assert(0x8000_0000_0000_0000 * u <= huge()) by (nonlinear_arith)
            requires
                u * wide() * wide() * wide() < huge(),
                u > 0,
        ;
        law_sums_are_near(stats.down_ewma, stats.up_ewma);
        lemma_value_order(sum, sum);
        let v = sum.value();
        lemma_fundamental_div_mod(v, u);
        let q = v / u;
        if exact > 0 {
            assert((p - 1) * exact <= v * p <= (p + 1) * exact);
            assert(v <= 0x8000_0000_0000_0000 * u * 2) by (nonlinear_arith)
                requires
                    v * p <= (p + 1) * exact,
                    exact <= 0x8000_0000_0000_0000 * u,
                    p == 0x20_0000_0000_0000,
                    u > 0,
            ;
            if q > u64::MAX {
                assert(v == u * wide()) by (nonlinear_arith)
                    requires
                        v == u * q + v % u,
                        q >= wide(),
                        v <= 0x8000_0000_0000_0000 * u * 2,
                        v % u >= 0,
                        u > 0,
                ;
                assert((p + 1) * exact < u * wide() * p) by (nonlinear_arith)
                    requires
                        exact <= 0x8000_0000_0000_0000 * u,
                        p == 0x20_0000_0000_0000,
                        u > 0,
                ;
            }
            assert(q >= 0) by (nonlinear_arith)
                requires
                    v == u * q + v % u,
                    v % u < u,
                    v >= 0,
                    u > 0,
            ;
            assert(q * u * p <= v * p && v * p <= (q + 1) * u * p) by (nonlinear_arith)
                requires
                    v == u * q + v % u,
                    0 <= v % u < u,
                    p > 0,
            ;
        } else if exact == 0 {
            assert(0int / u == 0) by {
                vstd::arithmetic::div_mod::lemma_div_basics(u);
            }
        }
    }
}

/// Enough delays are measured in 3.14159265 ticks, up to a nanosecond.
pub proof fn law_baseline_takes_three_ticks(config: Config, nanos: int)
    requires
        config.tick_interval.finite(),
        unit() <= config.tick_interval.value() * wide(),
        config.tick_interval.value() <= wide() * unit(),
        baseline_secs(config).lasts(nanos),
    ensures
        3_141_592_653 * config.tick_interval.value() - unit() <= nanos * unit(),
        nanos * unit() <= 3_141_592_654 * config.tick_interval.value() + unit(),
{
    let u = unit();
    let p = precision();
    let tick = config.tick_interval;
    let t = tick.value();
    let pi = Float64 { bits: PI };
    lemma_pow2_pos(1074);
    lemma_unit_is_large();
    lemma2_to64_rest();
    lemma_pow2_adds(51, 1023);
    lemma_pow2_pos(1023);
    let w = pow2(1023) as int;
    lemma_magnitude_split(1024, 0x9_21FB_5444_2D18);
    let c = pi.value();
    assert(c == 0x19_21FB_5444_2D18 * w);
    assert(u == 0x8_0000_0000_0000 * w);
    assert(3_141_592_653_500_000 * u <= c * 1_000_000_000_000_000 <= 3_141_592_653_600_000 * u)
        by (nonlinear_arith)
        requires
            c == 0x19_21FB_5444_2D18 * w,
            u == 0x8_0000_0000_0000 * w,
            w > 0,
    ;
    assert(EXPONENT_STEP * u <= t * c <= huge() * u) by (nonlinear_arith)
        requires
            u <= t * wide(),
            t <= wide() * u,
            u <= c <= 4 * u,
            wide() * wide() * wide() * wide() * EXPONENT_STEP <= u,
            u * wide() * wide() * wide() <= huge(),
            u > 0,
    {
        assert(t > 0);
        assert((t * wide()) * c >= u * u);
        assert(u * u >= (wide() * wide() * wide() * wide() * EXPONENT_STEP) * u);
        assert(t * c <= (wide() * u) * (4 * u));
        assert((wide() * u) * (4 * u) <= (u * wide() * wide() * wide()) * u);
        assert((u * wide() * wide() * wide()) * u <= huge() * u);
    }
    lemma_product_near(tick, pi);
    let v = baseline_secs(config).value();
    assert(t > 0) by (nonlinear_arith)
        requires
            u <= t * wide(),
            u > 0,
    ;
    assert(near(v, 1, t * c, u, 1));
    assert(size(v) == v);
    // v is about t times c.
    let tc = t * c;
    assert(tc * 1 == tc);
    assert((p - 1) * tc <= (v * u) * p <= (p + 1) * tc);
    assert(3_141_592_653_500_000 * (t * u) <= tc * 1_000_000_000_000_000
        <= 3_141_592_653_600_000 * (t * u)) by (nonlinear_arith)
        requires
            3_141_592_653_500_000 * u <= c * 1_000_000_000_000_000,
            c * 1_000_000_000_000_000 <= 3_141_592_653_600_000 * u,
            tc == t * c,
            t > 0,
    ;
    assert(v * 1_000_000_000 >= 3_141_592_653 * t) by (nonlinear_arith)
        requires
            (p - 1) * tc <= (v * u) * p,
            3_141_592_653_500_000 * (t * u) <= tc * 1_000_000_000_000_000,
            p == 0x20_0000_0000_0000,
            t > 0,
            u > 0,
    {
        let x = t * u;
        assert(x > 0);
        assert((p - 1) * (3_141_592_653_500_000 * x) <= (p - 1) * (tc * 1_000_000_000_000_000));
        assert((p - 1) * (tc * 1_000_000_000_000_000) <= (v * u) * p * 1_000_000_000_000_000);
        assert((3_141_592_653 * t) * u * p * 1_000_000 <= (p - 1) * (3_141_592_653_500_000 * x));
        assert((3_141_592_653 * t) * (u * p * 1_000_000) <= (v * 1_000_000_000) * (u * p
            * 1_000_000));
        assert(u * p * 1_000_000 > 0);
    }
    assert(v * 1_000_000_000 <= 3_141_592_654 * t) by (nonlinear_arith)
        requires
            (v * u) * p <= (p + 1) * tc,
            tc * 1_000_000_000_000_000 <= 3_141_592_653_600_000 * (t * u),
            p == 0x20_0000_0000_0000,
            t > 0,
            u > 0,
    {
        let x = t * u;
        assert(x > 0);
        assert((p + 1) * (tc * 1_000_000_000_000_000) <= (p + 1) * (3_141_592_653_600_000 * x));
        assert((v * u) * p * 1_000_000_000_000_000 <= (p + 1) * (tc * 1_000_000_000_000_000));
        assert((p + 1) * (3_141_592_653_600_000 * x) <= (3_141_592_654 * t) * u * p * 1_000_000);
        assert((v * 1_000_000_000) * (u * p * 1_000_000) <= (3_141_592_654 * t) * (u * p
            * 1_000_000));
        assert(u * p * 1_000_000 > 0);
    }
    assert((2 * nanos - 1) * u == 2 * (nanos * u) - u && (2 * nanos + 1) * u == 2 * (nanos * u) + u)
        by (nonlinear_arith);
}

/// The first pick decides which item comes last; the other picks shuffle what is before it.
proof fn lemma_first_pick<T>(items: Seq<T>, j: usize, rest: Seq<usize>)
    requires
        items.len() > 0,
        j < items.len(),
        rest.len() <= items.len() - 1,
        forall|k: int| 0 <= k < rest.len() ==> (#[trigger] rest[k]) < items.len() - 1 - k,
    ensures
        ({
            let first = exchanged(items, items.len() - 1, j as int);
            shuffled(items, seq![j] + rest) == shuffled(first.drop_last(), rest).push(
                items[j as int],
            )
        }),
    decreases rest.len(),
{
    let n = items.len() as int;
    let first = exchanged(items, n - 1, j as int);
    let front = first.drop_last();
    if rest.len() == 0 {
        assert(seq![j] + rest == seq![j]);
        assert(seq![j].drop_last() == Seq::<usize>::empty());
        assert(shuffled(items, Seq::<usize>::empty()) == items);
        assert(shuffled(items, seq![j]) == first);
        assert(first == front.push(items[j as int]));
    } else {
        let shorter = rest.drop_last();
        assert forall|k: int| 0 <= k < shorter.len() implies (#[trigger] shorter[k]) < n - 1
            - k by {
            assert(shorter[k] == rest[k]);
        }
        lemma_first_pick(items, j, shorter);
        assert((seq![j] + rest).drop_last() == seq![j] + shorter);
        law_shuffling_keeps_items(front, shorter);
        let before = shuffled(front, shorter);
        let at = n - 1 - rest.len();
        let x = rest.last() as int;
        assert(rest[rest.len() - 1] < n - 1 - (rest.len() - 1));
        assert(exchanged(before.push(items[j as int]), at, x) == exchanged(before, at, x).push(
            items[j as int],
        ));
    }
}

/// Shuffling can lead to any order.
pub proof fn law_any_order_is_possible<T>(items: Seq<T>, order: Seq<T>) -> (picks: Seq<usize>)
    requires
        order.to_multiset() == items.to_multiset(),
        items.len() <= usize::MAX,
    ensures
        can_shuffle(picks, items.len()),
        shuffled(items, picks) == order,
    decreases items.len(),
{
    broadcast use vstd::seq_lib::group_to_multiset_ensures;

    let n = items.len() as int;
    vstd::seq_lib::to_multiset_len(order);
    vstd::seq_lib::to_multiset_len(items);
    if n <= 1 {
        let picks = Seq::<usize>::empty();
        if n == 1 {
            assert(order.contains(order[0]));
            assert(items.to_multiset().count(order[0]) > 0);
            assert(items.contains(order[0]));
        }
        assert(order =~= items);
        picks
    } else {
        let last = order.last();
        assert(order.contains(order[n - 1]));
        assert(items.to_multiset().count(last) > 0);
        assert(items.contains(last));
        let at = choose|at: int| 0 <= at < n && items[at] == last;
        let j = at as usize;
        assert(shuffled(items, seq![j]) == exchanged(items, n - 1, at)) by {
            assert(seq![j].drop_last() == Seq::<usize>::empty());
            assert(shuffled(items, Seq::<usize>::empty()) == items);
        }
        law_shuffling_keeps_items(items, seq![j]);
        let first = exchanged(items, n - 1, at);
        let front = first.drop_last();
        assert(first == front.push(last));
        assert(order == order.drop_last().push(last));
        assert(front.to_multiset().insert(last) == order.drop_last().to_multiset().insert(last));
        assert(front.to_multiset() =~= order.drop_last().to_multiset()) by {
            assert forall|x: T| #[trigger]
                front.to_multiset().count(x) == order.drop_last().to_multiset().count(x) by {
                assert(front.to_multiset().insert(last).count(x)
                    == order.drop_last().to_multiset().insert(last).count(x));
            }
        }
        let rest = law_any_order_is_possible(front, order.drop_last());
        let picks = seq![j] + rest;
        assert forall|k: int| 0 <= k < picks.len() implies (#[trigger] picks[k]) < n - k by {
            if k > 0 {
                assert(picks[k] == rest[k - 1]);
            }
        }
        assert forall|k: int| 0 <= k < rest.len() implies (#[trigger] rest[k]) < n - 1 - k by {
            assert(rest[k] < front.len() - k);
        }
        lemma_first_pick(items, j, rest);
        picks
    }
}

/// Chance can choose any of the quickest candidates, twice as many as are needed.
pub proof fn law_any_of_the_quickest_can_be_chosen(
    ranked: Seq<Candidate>,
    num: nat,
    i: int,
) -> (picks: Seq<usize>)
    requires
        num > 0,
        0 <= i < ranked.len(),
        i < 2 * num,
        ranked.len() <= usize::MAX,
    ensures
        can_shuffle(picks, at_most(ranked.len(), 2 * num)),
        chosen(ranked, picks, num).contains(ranked[i].address),
{
    let quickest = ranked.take(at_most(ranked.len(), 2 * num) as int);
    let order = exchanged(quickest, 0, i);
    vstd::seq_lib::to_multiset_update(quickest, 0, quickest[i]);
    let middle = quickest.update(0, quickest[i]);
    vstd::seq_lib::to_multiset_update(middle, i, quickest[0]);
    vstd::seq_lib::to_multiset_contains(quickest, quickest[0]);
    assert(quickest.contains(quickest[0]));
    assert(middle[i] == quickest[i]);
    assert(quickest.to_multiset().insert(quickest[i]).remove(quickest[0]).insert(
        quickest[0],
    ).remove(quickest[i]) =~= quickest.to_multiset());
    let picks = law_any_order_is_possible(quickest, order);
    let all = chosen(ranked, picks, num);
    assert(order[0] == ranked[i]);
    assert(all[0] == ranked[i].address);
    picks
}

} // verus!
