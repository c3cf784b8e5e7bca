//! Which reflectors to measure with.
//!
//! From time to time some other reflectors are tried beside those in use. After a while the
//! ones that answer are ranked by how quickly they do, and a few of the quickest are kept.
//! Those that do not answer are left alone for a time, which grows with every failure.
use crate::address::{contains, AddrMap, IpAddr};
use crate::clock::{seconds, seconds_between, Clock};
use crate::config::Config;
use crate::float64::Float64;
use crate::pinger::ReflectorStats;
use crate::sorting::{ascending, law_sorting_keeps_items, sort, sorts, Ranked};
use vstd::arithmetic::power2::{lemma2_to64, lemma_pow2_strictly_increases, pow2};
use vstd::prelude::*;

verus! {

/// How many reflectors are drawn from the pool in one reselection.
pub const DRAWS: usize = 20;

/// How many seconds to wait between reselections at first.
pub const EARLY_WAIT: u64 = 30;

/// How many reselections there are before the configured wait applies.
pub const EARLY_RESELECTIONS: i32 = 40;

/// How many seconds a reply may be old.
pub const FRESH_SECS: u128 = 30;

/// For how many seconds after a failure another one does not count.
pub const GRACE_SECS: u128 = 10;

/// The longest time for which a reflector is left alone: 12 hours.
pub const LONGEST_PENALTY: u64 = 43_200;

/// 3.14159265358979, the double nearest to the ratio of a circle's circumference to its
/// diameter.
pub const PI: u64 = 0x4009_21FB_5444_2D18;

/// Calls `fastrand::usize` for a number in `..n`, which panics where the range is empty. What
/// is claimed is that the number is in the range. Which one it is is left to chance.
#[verifier::external_body]
fn random_below(n: usize) -> (r: usize)
    requires
        n > 0,
    ensures
        r < n,
{
    fastrand::usize(..n)
}

/// For how many seconds a reflector is left alone after `fails` failures in a row.
pub open spec fn penalty(fails: u32) -> int {
    if fails == 0 {
        0
    } else if fails == 1 {
        300
    } else if fails == 2 {
        1800
    } else if 3600 * pow2((fails - 3) as nat) < LONGEST_PENALTY {
        3600 * pow2((fails - 3) as nat) as int
    } else {
        LONGEST_PENALTY as int
    }
}

/// For how many seconds a reflector is left alone after `fails` failures in a row.
pub fn penalty_secs(fails: u32) -> (r: u64)
    ensures
        r == penalty(fails),
{
    proof {
        lemma2_to64();
        if fails > 7 {
            lemma_pow2_strictly_increases(4, (fails - 3) as nat);
        }
    }
    match fails {
        0 => 0,
        1 => 300,
        2 => 1800,
        3 => 3600,
        4 => 7200,
        5 => 14_400,
        6 => 28_800,
        _ => LONGEST_PENALTY,
    }
}

/// More failures never make the penalty shorter, and it is never longer than 12 hours.
pub proof fn law_penalty_grows_to_a_limit(a: u32, b: u32)
    requires
        a <= b,
    ensures
        penalty(a) <= penalty(b) <= LONGEST_PENALTY,
{
    lemma2_to64();
    if 3 <= a < b {
        lemma_pow2_strictly_increases((a - 3) as nat, (b - 3) as nat);
    } else if 3 < b {
        lemma_pow2_strictly_increases(0, (b - 3) as nat);
    }
}

/// The failures of a reflector, and when the last one was noticed, in nanoseconds.
#[derive(Clone, Copy, Debug, PartialEq, Eq, Structural)]
pub struct Failures {
    pub count: u32,
    pub last_check_time: u128,
}

/// One draw from the pool, and when it was made.
#[derive(Clone, Copy, Debug, PartialEq, Eq, Structural)]
pub struct Draw {
    pub index: usize,
    pub now: u128,
}

/// Whether `candidate` may join `peers`: it is not among them, and is not left alone at `now`.
pub open spec fn welcome(
    peers: Seq<IpAddr>,
    penalties: Map<IpAddr, Failures>,
    candidate: IpAddr,
    now: u128,
) -> bool {
    &&& !peers.contains(candidate)
    &&& penalties.contains_key(candidate) ==> seconds(now, penalties[candidate].last_check_time)
        >= penalty(penalties[candidate].count)
}

/// `peers`, and behind them those drawn from the pool that may join.
pub open spec fn gathered(
    peers: Seq<IpAddr>,
    pool: Seq<IpAddr>,
    penalties: Map<IpAddr, Failures>,
    draws: Seq<Draw>,
) -> Seq<IpAddr>
    decreases draws.len(),
{
    if draws.len() == 0 {
        peers
    } else {
        let earlier = gathered(peers, pool, penalties, draws.drop_last());
        let candidate = pool[draws.last().index as int];
        if welcome(earlier, penalties, candidate, draws.last().now) {
            earlier.push(candidate)
        } else {
            earlier
        }
    }
}

/// Whether every draw is from a pool of `n`.
pub open spec fn drawn_from(draws: Seq<Draw>, n: nat) -> bool {
    forall|i: int| 0 <= i < draws.len() ==> (#[trigger] draws[i]).index < n
}

/// Whether the time of every draw was read from `clock`.
pub open spec fn drawn_by(draws: Seq<Draw>, clock: Clock) -> bool {
    forall|i: int| 0 <= i < draws.len() ==> clock.can_show((#[trigger] draws[i]).now)
}

/// When the clock was read while a peer was looked at: to see how old its last reply is, to
/// see how long ago its last failure was noticed, and to note a failure.
#[derive(Clone, Copy, Debug, PartialEq, Eq, Structural)]
pub struct Reading {
    pub reply: u128,
    pub failure: u128,
    pub noted: u128,
}

/// Whether all times were read from `clock`.
pub open spec fn read_by(readings: Seq<Reading>, clock: Clock) -> bool {
    forall|i: int|
        0 <= i < readings.len() ==> {
            let reading = #[trigger] readings[i];
            &&& clock.can_show(reading.reply)
            &&& clock.can_show(reading.failure)
            &&& clock.can_show(reading.noted)
        }
}

/// A reflector that answered, and how long that took there and back, in milliseconds.
#[derive(Clone, Copy, Debug, PartialEq, Eq, Structural)]
pub struct Candidate {
    pub address: IpAddr,
    pub rtt: u64,
}

impl Ranked for Candidate {
    open spec fn key(self) -> int {
        self.rtt as int
    }

    fn at_most(&self, other: &Self) -> (r: bool) {
        self.rtt <= other.rtt
    }
}

/// Whether `peer` has answered less than 30 seconds before `now`.
pub open spec fn answers(recent: Map<IpAddr, ReflectorStats>, peer: IpAddr, now: u128) -> bool {
    recent.contains_key(peer) && seconds(now, recent[peer].last_receive_time_s) < FRESH_SECS
}

/// A peer that answered, as a candidate.
pub open spec fn candidate_of(recent: Map<IpAddr, ReflectorStats>, peer: IpAddr) -> Candidate {
    Candidate {
        address: peer,
        rtt: recent[peer].down_ewma.plus(recent[peer].up_ewma).truncated() as u64,
    }
}

/// The failures after one more.
pub open spec fn one_more(failures: u32) -> u32 {
    if failures == u32::MAX {
        0
    } else {
        (failures + 1) as u32
    }
}

/// The penalties after `peer` was looked at. An answer clears it. Silence counts as a
/// failure, except shortly after the last one.
pub open spec fn penalties_with(
    penalties: Map<IpAddr, Failures>,
    recent: Map<IpAddr, ReflectorStats>,
    peer: IpAddr,
    reading: Reading,
) -> Map<IpAddr, Failures> {
    if answers(recent, peer, reading.reply) {
        penalties.remove(peer)
    } else if !penalties.contains_key(peer) {
        penalties.insert(peer, Failures { count: 1, last_check_time: reading.noted })
    } else if seconds(reading.failure, penalties[peer].last_check_time) < GRACE_SECS {
        penalties
    } else {
        penalties.insert(
            peer,
            Failures { count: one_more(penalties[peer].count), last_check_time: reading.noted },
        )
    }
}

/// The penalties after the first `n` of `peers` were looked at.
pub open spec fn penalties_after(
    penalties: Map<IpAddr, Failures>,
    recent: Map<IpAddr, ReflectorStats>,
    peers: Seq<IpAddr>,
    readings: Seq<Reading>,
    n: int,
) -> Map<IpAddr, Failures>
    decreases n,
{
    if n <= 0 {
        penalties
    } else {
        penalties_with(
            penalties_after(penalties, recent, peers, readings, n - 1),
            recent,
            peers[n - 1],
            readings[n - 1],
        )
    }
}

/// Those of the first `n` of `peers` that answered.
pub open spec fn candidates_of(
    recent: Map<IpAddr, ReflectorStats>,
    peers: Seq<IpAddr>,
    readings: Seq<Reading>,
    n: int,
) -> Seq<Candidate>
    decreases n,
{
    if n <= 0 {
        Seq::empty()
    } else {
        let earlier = candidates_of(recent, peers, readings, n - 1);
        if answers(recent, peers[n - 1], readings[n - 1].reply) {
            earlier.push(candidate_of(recent, peers[n - 1]))
        } else {
            earlier
        }
    }
}

/// The smaller of two lengths.
pub open spec fn at_most(len: nat, limit: nat) -> nat {
    if len < limit {
        len
    } else {
        limit
    }
}

/// Whether `picks` can shuffle `n` items: each item but the first, from the last to the
/// second, is exchanged for one that does not stand behind it.
pub open spec fn can_shuffle(picks: Seq<usize>, n: nat) -> bool {
    &&& picks.len() == if n == 0 {
        0
    } else {
        n - 1
    }
    &&& forall|k: int| 0 <= k < picks.len() ==> (#[trigger] picks[k]) < n - k
}

/// `items` with those at `i` and `j` exchanged.
pub open spec fn exchanged<T>(items: Seq<T>, i: int, j: int) -> Seq<T> {
    items.update(i, items[j]).update(j, items[i])
}

/// `items`, shuffled by `picks`.
pub open spec fn shuffled<T>(items: Seq<T>, picks: Seq<usize>) -> Seq<T>
    decreases picks.len(),
{
    if picks.len() == 0 {
        items
    } else {
        exchanged(
            shuffled(items, picks.drop_last()),
            items.len() - picks.len(),
            picks.last() as int,
        )
    }
}

/// The addresses of `candidates`.
pub open spec fn addresses(candidates: Seq<Candidate>) -> Seq<IpAddr> {
    candidates.map_values(|c: Candidate| c.address)
}

/// The peers that `picks` make of the ranked candidates: the quickest, twice as many as
/// needed, are shuffled, and as many as needed are taken.
pub open spec fn chosen(ranked: Seq<Candidate>, picks: Seq<usize>, num: nat) -> Seq<IpAddr> {
    let quickest = shuffled(ranked.take(at_most(ranked.len(), 2 * num) as int), picks);
    addresses(quickest.take(at_most(quickest.len(), num) as int))
}

/// How many seconds it takes for enough delays to be measured.
pub open spec fn baseline_secs(config: Config) -> Float64 {
    config.tick_interval.times(Float64 { bits: PI })
}

/// What the selector knows.
pub struct ReflectorSelector {
    pub config: Config,
    /// All reflectors that may be used.
    pub reflector_pool: Vec<IpAddr>,
    /// The reflectors that did not answer when last asked.
    pub penalty_box: AddrMap<Failures>,
    pub reselection_count: i32,
    /// How long to wait for the next reselection, in seconds.
    pub sleep_secs: u64,
}

impl ReflectorSelector {
    /// Whether this differs from `other` in the penalties at most.
    pub open spec fn same_but_penalties(&self, other: &ReflectorSelector) -> bool {
        &&& self.config == other.config
        &&& self.reflector_pool == other.reflector_pool
        &&& self.reselection_count == other.reselection_count
        &&& self.sleep_secs == other.sleep_secs
    }

    /// Whether a reselection among `peers` ends with `chosen_peers` and `after`, where the
    /// clock was read as in `readings`, the candidates rank as in `ranked`, and `picks`
    /// shuffle them.
    pub open spec fn narrows_to(
        self,
        after: ReflectorSelector,
        recent: Map<IpAddr, ReflectorStats>,
        peers: Seq<IpAddr>,
        chosen_peers: Seq<IpAddr>,
        readings: Seq<Reading>,
        ranked: Seq<Candidate>,
        picks: Seq<usize>,
    ) -> bool {
        let n = peers.len() as int;
        let num = self.config.num_reflectors as nat;
        &&& readings.len() == n
        &&& after.penalty_box@ == penalties_after(self.penalty_box@, recent, peers, readings, n)
        &&& sorts(candidates_of(recent, peers, readings, n), ranked)
        &&& can_shuffle(picks, at_most(ranked.len(), 2 * num))
        &&& chosen_peers == chosen(ranked, picks, num)
    }

    /// Whether this is `before` after one more reselection was counted.
    pub open spec fn counted(&self, before: &ReflectorSelector) -> bool {
        &&& self.config == before.config
        &&& self.reflector_pool == before.reflector_pool
        &&& self.penalty_box == before.penalty_box
        &&& self.reselection_count == if before.reselection_count == i32::MAX {
            i32::MIN as int
        } else {
            before.reselection_count + 1
        }
        &&& self.sleep_secs == if self.reselection_count > EARLY_RESELECTIONS {
            late_wait(before.config)
        } else {
            before.sleep_secs as int
        }
    }

    /// A selector that has not selected anything yet.
    pub fn new(config: Config, reflector_pool: Vec<IpAddr>) -> (r: ReflectorSelector)
        ensures
            r.config == config,
            r.reflector_pool == reflector_pool,
            r.penalty_box@ == Map::<IpAddr, Failures>::empty(),
            r.reselection_count == 0,
            r.sleep_secs == EARLY_WAIT,
    {
        ReflectorSelector {
            config,
            reflector_pool,
            penalty_box: AddrMap::new(),
            reselection_count: 0,
            sleep_secs: EARLY_WAIT,
        }
    }

    /// How long it takes for enough delays to be measured, in nanoseconds: about three ticks.
    /// `None` where that is no length of time.
    pub fn baseline_sleep(&self) -> (r: Option<u128>)
        ensures
            ({
                let secs = baseline_secs(self.config);
                match r {
                    Some(nanos) => secs.is_duration() && secs.lasts(nanos as int),
                    None => !secs.is_duration(),
                }
            }),
    {
        self.config.tick_interval.multiply(Float64 { bits: PI }).to_nanos()
    }

    /// Counts one more reselection. The first 40 follow one another quickly; after that the
    /// configured number of minutes lies between them.
    pub fn count_reselection(&mut self)
        ensures
            final(self).counted(old(self)),
    {
        self.reselection_count = self.reselection_count.wrapping_add(1);
        if self.reselection_count > EARLY_RESELECTIONS {
            self.sleep_secs = self.config.peer_reselection_time.wrapping_mul(60);
        }
    }

    /// Lets the reflector that was drawn join `peers`, where it may.
    pub fn consider(&self, peers: &mut Vec<IpAddr>, draw: Draw)
        requires
            draw.index < self.reflector_pool@.len(),
        ensures
            ({
                let candidate = self.reflector_pool@[draw.index as int];
                final(peers)@ == if welcome(
                    old(peers)@,
                    self.penalty_box@,
                    candidate,
                    draw.now,
                ) {
                    old(peers)@.push(candidate)
                } else {
                    old(peers)@
                }
            }),
    {
        let candidate: IpAddr = self.reflector_pool[draw.index];
        if contains(peers, candidate) {
            return;
        }
        if let Some(failures) = self.penalty_box.get(candidate) {
            let waited: u128 = seconds_between(draw.now, failures.last_check_time);
            if waited < penalty_secs(failures.count) as u128 {
                return;
            }
        }
        peers.push(candidate);
    }

    /// The current peers, and those of the drawn ones that may join them.
    pub fn gather(&self, peers: &Vec<IpAddr>, draws: &Vec<Draw>) -> (r: Vec<IpAddr>)
        requires
            drawn_from(draws@, self.reflector_pool@.len()),
        ensures
            r@ == gathered(peers@, self.reflector_pool@, self.penalty_box@, draws@),
    {
        let mut next_peers: Vec<IpAddr> = Vec::new();
        let mut i: usize = 0;
        while i < peers.len()
            invariant
                i <= peers.len(),
                next_peers@ == peers@.take(i as int),
            decreases peers.len() - i,
        {
            next_peers.push(peers[i]);
            i = i + 1;
        }
        let mut k: usize = 0;
        while k < draws.len()
            invariant
                k <= draws.len(),
                drawn_from(draws@, self.reflector_pool@.len()),
                next_peers@ == gathered(
                    peers@,
                    self.reflector_pool@,
                    self.penalty_box@,
                    draws@.take(k as int),
                ),
            decreases draws.len() - k,
        {
            assert(draws@.take(k + 1).drop_last() == draws@.take(k as int));
            assert(draws@[k as int].index < self.reflector_pool@.len());
            self.consider(&mut next_peers, draws[k]);
            k = k + 1;
        }
        assert(draws@.take(k as int) == draws@);
        next_peers
    }

    /// Begins a reselection: draws reflectors from the pool, and lets them join the current
    /// peers. What it draws is left to chance.
    pub fn widen(&mut self, peers: &Vec<IpAddr>, clock: &Clock) -> (r: Vec<IpAddr>)
        requires
            old(self).reflector_pool@.len() > 0,
        ensures
            final(self).counted(old(self)),
            exists|draws: Seq<Draw>|
                {
                    &&& draws.len() == DRAWS
                    &&& drawn_from(draws, old(self).reflector_pool@.len())
                    &&& drawn_by(draws, *clock)
                    &&& r@ == #[trigger] gathered(
                        peers@,
                        old(self).reflector_pool@,
                        old(self).penalty_box@,
                        draws,
                    )
                },
    {
        self.count_reselection();
        let mut draws: Vec<Draw> = Vec::new();
        while draws.len() < DRAWS
            invariant
                draws.len() <= DRAWS,
                self.reflector_pool@.len() > 0,
                drawn_from(draws@, self.reflector_pool@.len()),
                drawn_by(draws@, *clock),
            decreases DRAWS - draws.len(),
        {
            let index: usize = random_below(self.reflector_pool.len());
            draws.push(Draw { index, now: clock.now() });
        }
        self.gather(peers, &draws)
    }

    /// Looks at one peer: whether it answered, and whether it is to be left alone.
    pub fn assess_peer(
        &mut self,
        recent: &AddrMap<ReflectorStats>,
        peer: IpAddr,
        reading: Reading,
    ) -> (r: Option<Candidate>)
        ensures
            final(self).same_but_penalties(old(self)),
            final(self).penalty_box@ == penalties_with(
                old(self).penalty_box@,
                recent@,
                peer,
                reading,
            ),
            r == if answers(recent@, peer, reading.reply) {
                Some(candidate_of(recent@, peer))
            } else {
                None
            },
    {
        if let Some(stats) = recent.get(peer) {
            if seconds_between(reading.reply, stats.last_receive_time_s) < FRESH_SECS {
                self.penalty_box.remove(peer);
                let rtt: u64 = stats.down_ewma.add_number(stats.up_ewma).to_u64();
                return Some(Candidate { address: peer, rtt });
            }
        }
        let mut count: u32 = 0;
        if let Some(failures) = self.penalty_box.get(peer) {
            if seconds_between(reading.failure, failures.last_check_time) < GRACE_SECS {
                return None;
            }
            count = failures.count;
        }
        self.penalty_box.insert(
            peer,
            Failures { count: count.wrapping_add(1), last_check_time: reading.noted },
        );
        None
    }

    /// Looks at all peers. The result is those that answered, in their order.
    pub fn assess(
        &mut self,
        recent: &AddrMap<ReflectorStats>,
        peers: &Vec<IpAddr>,
        readings: &Vec<Reading>,
    ) -> (r: Vec<Candidate>)
        requires
            readings@.len() == peers@.len(),
        ensures
            final(self).same_but_penalties(old(self)),
            final(self).penalty_box@ == penalties_after(
                old(self).penalty_box@,
                recent@,
                peers@,
                readings@,
                peers@.len() as int,
            ),
            r@ == candidates_of(recent@, peers@, readings@, peers@.len() as int),
    {
        let mut candidates: Vec<Candidate> = Vec::new();
        let mut i: usize = 0;
        while i < peers.len()
            invariant
                i <= peers.len(),
                readings@.len() == peers@.len(),
                self.same_but_penalties(old(self)),
                self.penalty_box@ == penalties_after(
                    old(self).penalty_box@,
                    recent@,
                    peers@,
                    readings@,
                    i as int,
                ),
                candidates@ == candidates_of(recent@, peers@, readings@, i as int),
            decreases peers.len() - i,
        {
            if let Some(candidate) = self.assess_peer(recent, peers[i], readings[i]) {
                candidates.push(candidate);
            }
            i = i + 1;
        }
        candidates
    }

    /// Chooses the new peers among the candidates, by what was picked for the shuffle.
    pub fn choose_peers(&self, candidates: &Vec<Candidate>, picks: &Vec<usize>) -> (r: Vec<IpAddr>)
        requires
            can_shuffle(
                picks@,
                at_most(candidates@.len(), 2 * self.config.num_reflectors as nat),
            ),
        ensures
            exists|ranked: Seq<Candidate>| #[trigger]
                sorts(candidates@, ranked) && r@ == chosen(
                    ranked,
                    picks@,
                    self.config.num_reflectors as nat,
                ),
    {
        let num: usize = self.config.num_reflectors as usize;
        let mut list: Vec<Candidate> = sort(candidates);
        let ghost ranked = list@;
        list.truncate(2 * num);
        let ghost quickest = list@;
        assert(quickest == ranked.take(at_most(ranked.len(), 2 * num as nat) as int));
        let mut i: usize = 0;
        assert(picks@.take(0) == Seq::<usize>::empty());
        while i < picks.len()
            invariant
                i <= picks.len(),
                can_shuffle(picks@, quickest.len()),
                list@.len() == quickest.len(),
                list@ == shuffled(quickest, picks@.take(i as int)),
            decreases picks.len() - i,
        {
            assert(picks@.take(i + 1).drop_last() == picks@.take(i as int));
            let at: usize = list.len() - 1 - i;
            assert(picks@[i as int] < quickest.len() - i);
            let other: usize = picks[i];
            let here: Candidate = list[at];
            let there: Candidate = list[other];
            list.set(at, there);
            list.set(other, here);
            i = i + 1;
        }
        assert(picks@.take(i as int) == picks@);
        let count: usize = if list.len() < num {
            list.len()
        } else {
            num
        };
        let mut new_peers: Vec<IpAddr> = Vec::new();
        let mut k: usize = 0;
        while k < count
            invariant
                k <= count <= list.len(),
                new_peers@ == addresses(list@.take(k as int)),
            decreases count - k,
        {
            new_peers.push(list[k].address);
            assert(list@.take(k + 1) == list@.take(k as int).push(list@[k as int]));
            k = k + 1;
        }
        assert(sorts(candidates@, ranked));
        new_peers
    }

    /// Ends a reselection: looks at all peers, and chooses the new ones among those that
    /// answered. How the quickest are shuffled is left to chance.
    pub fn narrow(
        &mut self,
        recent: &AddrMap<ReflectorStats>,
        peers: &Vec<IpAddr>,
        clock: &Clock,
    ) -> (r: Vec<IpAddr>)
        ensures
            final(self).same_but_penalties(old(self)),
            exists|readings: Seq<Reading>, ranked: Seq<Candidate>, picks: Seq<usize>|
                read_by(readings, *clock) && #[trigger] old(self).narrows_to(
                    *final(self),
                    recent@,
                    peers@,
                    r@,
                    readings,
                    ranked,
                    picks,
                ),
    {
        let mut readings: Vec<Reading> = Vec::new();
        while readings.len() < peers.len()
            invariant
                readings.len() <= peers.len(),
                read_by(readings@, *clock),
            decreases peers.len() - readings.len(),
        {
            let reply: u128 = clock.now();
            let failure: u128 = clock.now();
            let noted: u128 = clock.now();
            readings.push(Reading { reply, failure, noted });
        }
        let candidates: Vec<Candidate> = self.assess(recent, peers, &readings);
        let limit: usize = 2 * self.config.num_reflectors as usize;
        let listed: usize = if candidates.len() < limit {
            candidates.len()
        } else {
            limit
        };
        let picks: Vec<usize> = random_picks(listed);
        let new_peers: Vec<IpAddr> = self.choose_peers(&candidates, &picks);
        proof {
            let num = self.config.num_reflectors as nat;
            let ranked = choose|ranked: Seq<Candidate>| #[trigger]
                sorts(candidates@, ranked) && new_peers@ == chosen(ranked, picks@, num);
            assert(old(self).narrows_to(
                *self,
                recent@,
                peers@,
                new_peers@,
                readings@,
                ranked,
                picks@,
            ));
        }
        new_peers
    }
}

/// Picks that shuffle `n` items, by chance.
pub fn random_picks(n: usize) -> (r: Vec<usize>)
    ensures
        can_shuffle(r@, n as nat),
{
    let mut picks: Vec<usize> = Vec::new();
    if n == 0 {
        return picks;
    }
    while picks.len() < n - 1
        invariant
            n > 0,
            picks.len() <= n - 1,
            forall|k: int| 0 <= k < picks.len() ==> (#[trigger] picks@[k]) < n - k,
        decreases n - picks.len(),
    {
        let pick: usize = random_below(n - picks.len());
        picks.push(pick);
    }
    picks
}

/// Whether one whole reselection leads from `before` to `after`: it is counted when it
/// begins, and ends with the penalties.
pub open spec fn reselects_to(before: ReflectorSelector, after: ReflectorSelector) -> bool {
    exists|begun: ReflectorSelector| #[trigger]
        begun.counted(&before) && after.same_but_penalties(&begun)
}

/// The configured number of minutes between reselections, in seconds.
pub open spec fn late_wait(config: Config) -> int {
    (config.peer_reselection_time * 60) % 0x1_0000_0000_0000_0000
}

/// The selector waits 30 seconds for each of the first 41 reselections, and the configured
/// number of minutes for each one after these. `rounds` are the selector before the first
/// reselection and after each of them, so that the wait for number `k` is the one that
/// stands in `rounds[k - 1]`. As far as the count goes, it is the number of the reselection.
pub proof fn law_waits_by_number(rounds: Seq<ReflectorSelector>, k: int)
    requires
        1 <= k <= rounds.len(),
        rounds[0].reselection_count == 0,
        rounds[0].sleep_secs == EARLY_WAIT,
        forall|i: int, j: int|
            #![trigger rounds[i], rounds[j]]
            0 <= i && j == i + 1 && j < rounds.len() ==> reselects_to(rounds[i], rounds[j]),
    ensures
        k <= EARLY_RESELECTIONS + 1 ==> rounds[k - 1].sleep_secs == EARLY_WAIT,
        k > EARLY_RESELECTIONS + 1 ==> rounds[k - 1].sleep_secs == late_wait(rounds[0].config),
        rounds[0].config.peer_reselection_time * 60 <= u64::MAX ==> late_wait(rounds[0].config)
            == rounds[0].config.peer_reselection_time * 60,
        k - 1 <= i32::MAX ==> rounds[k - 1].reselection_count == k - 1,
        rounds[k - 1].config == rounds[0].config,
        rounds[k - 1].reflector_pool == rounds[0].reflector_pool,
    decreases k,
{
    if k > 1 {
        law_waits_by_number(rounds, k - 1);
        assert(reselects_to(rounds[k - 2], rounds[k - 1]));
    }
}

/// The current peers stay, in front, and at most as many join them as were drawn.
pub proof fn law_current_peers_stay(
    peers: Seq<IpAddr>,
    pool: Seq<IpAddr>,
    penalties: Map<IpAddr, Failures>,
    draws: Seq<Draw>,
)
    ensures
        ({
            let all = gathered(peers, pool, penalties, draws);
            &&& peers.len() <= all.len() <= peers.len() + draws.len()
            &&& all.take(peers.len() as int) == peers
        }),
    decreases draws.len(),
{
    if draws.len() > 0 {
        law_current_peers_stay(peers, pool, penalties, draws.drop_last());
    } else {
        assert(peers.take(peers.len() as int) == peers);
    }
}

/// Who joins was drawn from the pool, was no peer already, and was not to be left alone.
pub proof fn law_newcomers_were_welcome(
    peers: Seq<IpAddr>,
    pool: Seq<IpAddr>,
    penalties: Map<IpAddr, Failures>,
    draws: Seq<Draw>,
    i: int,
)
    requires
        peers.len() <= i < gathered(peers, pool, penalties, draws).len(),
    ensures
        ({
            let all = gathered(peers, pool, penalties, draws);
            exists|k: int|
                0 <= k < draws.len() && all[i] == pool[(#[trigger] draws[k]).index as int]
                    && welcome(all.take(i), penalties, all[i], draws[k].now)
        }),
    decreases draws.len(),
{
    if draws.len() > 0 {
        let shorter = draws.drop_last();
        let earlier = gathered(peers, pool, penalties, shorter);
        let all = gathered(peers, pool, penalties, draws);
        if i < earlier.len() {
            law_newcomers_were_welcome(peers, pool, penalties, shorter, i);
            let k = choose|k: int|
                0 <= k < shorter.len() && earlier[i] == pool[(#[trigger] shorter[k]).index as int]
                    && welcome(earlier.take(i), penalties, earlier[i], shorter[k].now);
            assert(draws[k] == shorter[k]);
            assert(all.take(i) == earlier.take(i));
        } else {
            assert(draws[draws.len() - 1] == draws.last());
            assert(all.take(i) == earlier);
        }
    }
}

/// No reflector is measured with twice.
pub proof fn law_no_peer_twice(
    peers: Seq<IpAddr>,
    pool: Seq<IpAddr>,
    penalties: Map<IpAddr, Failures>,
    draws: Seq<Draw>,
)
    requires
        peers.no_duplicates(),
    ensures
        gathered(peers, pool, penalties, draws).no_duplicates(),
    decreases draws.len(),
{
    if draws.len() > 0 {
        law_no_peer_twice(peers, pool, penalties, draws.drop_last());
    }
}

/// A reflector that is to be left alone does not join before its time is over.
pub proof fn law_penalised_reflectors_wait(
    peers: Seq<IpAddr>,
    pool: Seq<IpAddr>,
    penalties: Map<IpAddr, Failures>,
    draws: Seq<Draw>,
    address: IpAddr,
)
    requires
        !peers.contains(address),
        penalties.contains_key(address),
        forall|k: int|
            0 <= k < draws.len() ==> seconds(
                (#[trigger] draws[k]).now,
                penalties[address].last_check_time,
            ) < penalty(penalties[address].count),
    ensures
        !gathered(peers, pool, penalties, draws).contains(address),
    decreases draws.len(),
{
    if draws.len() > 0 {
        let shorter = draws.drop_last();
        assert forall|k: int| 0 <= k < shorter.len() implies seconds(
            (#[trigger] shorter[k]).now,
            penalties[address].last_check_time,
        ) < penalty(penalties[address].count) by {
            assert(shorter[k] == draws[k]);
        }
        law_penalised_reflectors_wait(peers, pool, penalties, shorter, address);
        let last = draws[draws.len() - 1];
        assert(draws.last() == last);
        let earlier = gathered(peers, pool, penalties, shorter);
        let candidate = pool[last.index as int];
        if welcome(earlier, penalties, candidate, last.now) {
            assert(candidate != address);
            let all = earlier.push(candidate);
            assert forall|i: int| 0 <= i < all.len() implies all[i] != address by {
                if i < earlier.len() {
                    assert(earlier.contains(earlier[i]));
                }
            }
        }
    }
}

/// Shuffling neither loses nor adds anything.
pub proof fn law_shuffling_keeps_items<T>(items: Seq<T>, picks: Seq<usize>)
    requires
        picks.len() <= items.len(),
        forall|k: int| 0 <= k < picks.len() ==> (#[trigger] picks[k]) < items.len() - k,
    ensures
        shuffled(items, picks).len() == items.len(),
        shuffled(items, picks).to_multiset() == items.to_multiset(),
    decreases picks.len(),
{
    if picks.len() > 0 {
        let shorter = picks.drop_last();
        assert forall|k: int| 0 <= k < shorter.len() implies (#[trigger] shorter[k]) < items.len()
            - k by {
            assert(shorter[k] == picks[k]);
        }
        law_shuffling_keeps_items(items, shorter);
        let before = shuffled(items, shorter);
        let i = items.len() - picks.len();
        let j = picks.last() as int;
        assert(picks[picks.len() - 1] < items.len() - (picks.len() - 1));
        vstd::seq_lib::to_multiset_update(before, i, before[j]);
        let middle = before.update(i, before[j]);
        vstd::seq_lib::to_multiset_update(middle, j, before[i]);
        vstd::seq_lib::to_multiset_contains(before, before[i]);
        assert(before.contains(before[i]));
        assert(middle[j] == before[j]);
        assert(before.to_multiset().insert(before[j]).remove(before[i]).insert(before[i]).remove(
            before[j],
        ) =~= before.to_multiset());
    }
}

/// The candidates are the peers that answered.
proof fn lemma_candidate_is_peer(
    recent: Map<IpAddr, ReflectorStats>,
    peers: Seq<IpAddr>,
    readings: Seq<Reading>,
    n: int,
    c: Candidate,
)
    requires
        candidates_of(recent, peers, readings, n).contains(c),
        n <= peers.len(),
    ensures
        exists|i: int|
            0 <= i < n && c == candidate_of(recent, #[trigger] peers[i]) && answers(
                recent,
                peers[i],
                readings[i].reply,
            ),
    decreases n,
{
    if n > 0 {
        let earlier = candidates_of(recent, peers, readings, n - 1);
        let here = candidate_of(recent, peers[n - 1]);
        let all = candidates_of(recent, peers, readings, n);
        let at = choose|at: int| 0 <= at < all.len() && all[at] == c;
        if at < earlier.len() {
            assert(earlier[at] == c);
            lemma_candidate_is_peer(recent, peers, readings, n - 1, c);
        } else {
            assert(c == here);
        }
    }
}

/// Where no peer occurs twice, no candidate does.
proof fn lemma_candidates_differ(
    recent: Map<IpAddr, ReflectorStats>,
    peers: Seq<IpAddr>,
    readings: Seq<Reading>,
    n: int,
)
    requires
        n <= peers.len(),
        peers.no_duplicates(),
    ensures
        candidates_of(recent, peers, readings, n).no_duplicates(),
    decreases n,
{
    if n > 0 {
        lemma_candidates_differ(recent, peers, readings, n - 1);
        let earlier = candidates_of(recent, peers, readings, n - 1);
        let here = candidate_of(recent, peers[n - 1]);
        if earlier.contains(here) {
            lemma_candidate_is_peer(recent, peers, readings, n - 1, here);
        }
    }
}

/// The quickest candidates, before and after they are shuffled.
proof fn lemma_shuffled_quickest(ranked: Seq<Candidate>, picks: Seq<usize>, num: nat)
    requires
        can_shuffle(picks, at_most(ranked.len(), 2 * num)),
    ensures
        ({
            let quickest = ranked.take(at_most(ranked.len(), 2 * num) as int);
            &&& shuffled(quickest, picks).len() == quickest.len()
            &&& shuffled(quickest, picks).to_multiset() == quickest.to_multiset()
            &&& chosen(ranked, picks, num).len() == at_most(ranked.len(), num)
        }),
{
    let quickest = ranked.take(at_most(ranked.len(), 2 * num) as int);
    law_shuffling_keeps_items(quickest, picks);
}

/// As many peers are chosen as are needed, or as there are candidates.
pub proof fn law_enough_peers_are_chosen(
    before: ReflectorSelector,
    after: ReflectorSelector,
    recent: Map<IpAddr, ReflectorStats>,
    peers: Seq<IpAddr>,
    chosen_peers: Seq<IpAddr>,
    readings: Seq<Reading>,
    ranked: Seq<Candidate>,
    picks: Seq<usize>,
)
    requires
        before.narrows_to(after, recent, peers, chosen_peers, readings, ranked, picks),
    ensures
        chosen_peers.len() == at_most(
            candidates_of(recent, peers, readings, peers.len() as int).len(),
            before.config.num_reflectors as nat,
        ),
{
    lemma_shuffled_quickest(ranked, picks, before.config.num_reflectors as nat);
}

/// Each chosen peer was a peer before, has answered lately, and is among the quickest: all
/// candidates that are not on the short list took at least as long.
pub proof fn law_chosen_peers_are_quick(
    before: ReflectorSelector,
    after: ReflectorSelector,
    recent: Map<IpAddr, ReflectorStats>,
    peers: Seq<IpAddr>,
    chosen_peers: Seq<IpAddr>,
    readings: Seq<Reading>,
    ranked: Seq<Candidate>,
    picks: Seq<usize>,
    i: int,
)
    requires
        before.narrows_to(after, recent, peers, chosen_peers, readings, ranked, picks),
        0 <= i < chosen_peers.len(),
    ensures
        exists|k: int|
            0 <= k < peers.len() && (#[trigger] peers[k]) == chosen_peers[i] && answers(
                recent,
                peers[k],
                readings[k].reply,
            ),
        forall|m: int|
            2 * before.config.num_reflectors <= m < ranked.len() ==> candidate_of(
                recent,
                chosen_peers[i],
            ).rtt <= (#[trigger] ranked[m]).rtt,
{
    let num = before.config.num_reflectors as nat;
    let n = peers.len() as int;
    let candidates = candidates_of(recent, peers, readings, n);
    let quickest = ranked.take(at_most(ranked.len(), 2 * num) as int);
    let list = shuffled(quickest, picks);
    lemma_shuffled_quickest(ranked, picks, num);
    let c = list[i];
    assert(c.address == chosen_peers[i]);
    vstd::seq_lib::to_multiset_contains(list, c);
    vstd::seq_lib::to_multiset_contains(quickest, c);
    let at = choose|at: int| 0 <= at < quickest.len() && quickest[at] == c;
    assert(ranked[at] == c);
    law_sorting_keeps_items(candidates, ranked);
    vstd::seq_lib::to_multiset_contains(ranked, c);
    vstd::seq_lib::to_multiset_contains(candidates, c);
    lemma_candidate_is_peer(recent, peers, readings, n, c);
    assert forall|m: int| 2 * num <= m < ranked.len() implies c.rtt <= (
    #[trigger] ranked[m]).rtt by {
        assert(ascending(ranked));
        assert(ranked[at].key() <= ranked[m].key());
    }
}

/// Where no peer occurs twice, none is chosen twice.
pub proof fn law_no_peer_chosen_twice(
    before: ReflectorSelector,
    after: ReflectorSelector,
    recent: Map<IpAddr, ReflectorStats>,
    peers: Seq<IpAddr>,
    chosen_peers: Seq<IpAddr>,
    readings: Seq<Reading>,
    ranked: Seq<Candidate>,
    picks: Seq<usize>,
)
    requires
        before.narrows_to(after, recent, peers, chosen_peers, readings, ranked, picks),
        peers.no_duplicates(),
    ensures
        chosen_peers.no_duplicates(),
{
    let num = before.config.num_reflectors as nat;
    let n = peers.len() as int;
    let candidates = candidates_of(recent, peers, readings, n);
    let quickest = ranked.take(at_most(ranked.len(), 2 * num) as int);
    let list = shuffled(quickest, picks);
    lemma_shuffled_quickest(ranked, picks, num);
    lemma_candidates_differ(recent, peers, readings, n);
    law_sorting_keeps_items(candidates, ranked);
    candidates.lemma_multiset_has_no_duplicates();
    ranked.lemma_multiset_has_no_duplicates_conv();
    quickest.lemma_multiset_has_no_duplicates();
    list.lemma_multiset_has_no_duplicates_conv();
    assert forall|i: int, j: int| 0 <= i < j < chosen_peers.len() implies chosen_peers[i]
        != chosen_peers[j] by {
        lemma_listed(recent, candidates, ranked, quickest, list, peers, readings, i);
        lemma_listed(recent, candidates, ranked, quickest, list, peers, readings, j);
        assert(list[i] != list[j]);
    }
}

/// What is on the list is made from the delays of its address.
proof fn lemma_listed(
    recent: Map<IpAddr, ReflectorStats>,
    candidates: Seq<Candidate>,
    ranked: Seq<Candidate>,
    quickest: Seq<Candidate>,
    list: Seq<Candidate>,
    peers: Seq<IpAddr>,
    readings: Seq<Reading>,
    i: int,
)
    requires
        candidates == candidates_of(recent, peers, readings, peers.len() as int),
        ranked.to_multiset() == candidates.to_multiset(),
        quickest.len() <= ranked.len(),
        quickest == ranked.take(quickest.len() as int),
        list.to_multiset() == quickest.to_multiset(),
        0 <= i < list.len(),
    ensures
        list[i] == candidate_of(recent, list[i].address),
{
    let c = list[i];
    vstd::seq_lib::to_multiset_contains(list, c);
    vstd::seq_lib::to_multiset_contains(quickest, c);
    let at = choose|at: int| 0 <= at < quickest.len() && quickest[at] == c;
    assert(ranked[at] == c);
    vstd::seq_lib::to_multiset_contains(ranked, c);
    vstd::seq_lib::to_multiset_contains(candidates, c);
    lemma_candidate_is_peer(recent, peers, readings, peers.len() as int, c);
}

/// A reflector that is not among the first `n` peers keeps its penalty.
proof fn lemma_penalty_kept(
    penalties: Map<IpAddr, Failures>,
    recent: Map<IpAddr, ReflectorStats>,
    peers: Seq<IpAddr>,
    readings: Seq<Reading>,
    n: int,
    address: IpAddr,
)
    requires
        n <= peers.len(),
        forall|i: int| 0 <= i < n ==> (#[trigger] peers[i]) != address,
    ensures
        ({
            let after = penalties_after(penalties, recent, peers, readings, n);
            &&& after.contains_key(address) == penalties.contains_key(address)
            &&& after.contains_key(address) ==> after[address] == penalties[address]
        }),
    decreases n,
{
    if n > 0 {
        lemma_penalty_kept(penalties, recent, peers, readings, n - 1, address);
        assert(peers[n - 1] != address);
    }
}

/// After a reselection exactly those peers that did not answer are left alone. Nothing
/// changes for reflectors that were no peers.
pub proof fn law_silent_peers_are_left_alone(
    penalties: Map<IpAddr, Failures>,
    recent: Map<IpAddr, ReflectorStats>,
    peers: Seq<IpAddr>,
    readings: Seq<Reading>,
    n: int,
    address: IpAddr,
)
    requires
        0 <= n <= peers.len(),
        peers.no_duplicates(),
    ensures
        ({
            let after = penalties_after(penalties, recent, peers, readings, n);
            &&& forall|i: int|
                0 <= i < n ==> after.contains_key(#[trigger] peers[i]) == !answers(
                    recent,
                    peers[i],
                    readings[i].reply,
                )
            &&& !peers.take(n).contains(address) ==> {
                &&& after.contains_key(address) == penalties.contains_key(address)
                &&& after.contains_key(address) ==> after[address] == penalties[address]
            }
        }),
    decreases n,
{
    if n > 0 {
        law_silent_peers_are_left_alone(penalties, recent, peers, readings, n - 1, address);
    }
    if !peers.take(n).contains(address) {
        assert forall|i: int| 0 <= i < n implies (#[trigger] peers[i]) != address by {
            assert(peers.take(n)[i] == peers[i]);
        }
        lemma_penalty_kept(penalties, recent, peers, readings, n, address);
    }
}

} // verus!
