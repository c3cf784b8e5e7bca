//! From delays to rates: when to lower the rate of a shaper, when to raise it, and when to
//! leave it alone.
//!
//! The program around the library sleeps, asks the kernel for byte counters and sets the
//! rates; after each of these it tells the controller what happened, and the controller says
//! what to do next.
use crate::address::{AddrMap, IpAddr};
use crate::arithmetic::{
    law_shares_are_no_more, law_sums_are_no_less, seconds_as_double, seconds_of,
};
use crate::clock::{nanos_between, span, LONGEST_SPAN};
use crate::config::{Config, HALF, ZERO};
use crate::float64::{lemma_magnitude_split, lemma_value_order, unit, Float64, INFINITY_BITS};
use crate::pinger::ReflectorStats;
use crate::sorting::{sort, sorts, Ranked};
use vstd::arithmetic::div_mod::{
    lemma_div_pos_is_pos, lemma_fundamental_div_mod, lemma_fundamental_div_mod_converse,
};
use vstd::arithmetic::power2::{lemma2_to64_rest, lemma_pow2_adds, lemma_pow2_pos, pow2};
use vstd::prelude::*;

verus! {

/// The two directions that are shaped.
#[derive(Clone, Copy, Debug, PartialEq, Eq, Structural)]
pub enum Direction {
    Down,
    Up,
}

/// Which counter of an interface counts the bytes of a direction.
#[derive(Clone, Copy, Debug, PartialEq, Eq, Structural)]
pub enum StatsDirection {
    RX,
    TX,
}

/// Why the kernel could not be asked about an interface.
#[derive(Clone, Debug)]
pub struct NetlinkError {
    pub message: String,
}

/// Why the controller cannot go on.
#[derive(Clone, Debug)]
pub enum RatecontrolError {
    Netlink(NetlinkError),
}

impl RatecontrolError {
    /// The error in words.
    pub fn message(&self) -> (r: &'static str)
        ensures
            r@ == "Netlink error"@,
    {
        "Netlink error"
    }
}

/// The counter of `counters` (received, sent) that `direction` names.
pub open spec fn counter(counters: (i128, i128), direction: StatsDirection) -> i128 {
    match direction {
        StatsDirection::RX => counters.0,
        StatsDirection::TX => counters.1,
    }
}

/// The bytes counted on the two interfaces. `down` and `up` are what the kernel said of the
/// download and the upload interface: the bytes received and the bytes sent.
pub fn get_interface_stats(
    down: Result<(i128, i128), NetlinkError>,
    up: Result<(i128, i128), NetlinkError>,
    down_direction: StatsDirection,
    up_direction: StatsDirection,
) -> (r: Result<(i128, i128), RatecontrolError>)
    ensures
        match (down, up) {
            (Ok(d), Ok(u)) => r == Ok::<(i128, i128), RatecontrolError>(
                (counter(d, down_direction), counter(u, up_direction)),
            ),
            (Err(e), _) => r == Err::<(i128, i128), RatecontrolError>(RatecontrolError::Netlink(e)),
            (Ok(_), Err(e)) => r == Err::<(i128, i128), RatecontrolError>(
                RatecontrolError::Netlink(e),
            ),
        },
{
    let down: (i128, i128) = match down {
        Ok(counters) => counters,
        Err(e) => {
            return Err(RatecontrolError::Netlink(e));
        },
    };
    let up: (i128, i128) = match up {
        Ok(counters) => counters,
        Err(e) => {
            return Err(RatecontrolError::Netlink(e));
        },
    };
    let rx_bytes: i128 = match down_direction {
        StatsDirection::RX => down.0,
        StatsDirection::TX => down.1,
    };
    let tx_bytes: i128 = match up_direction {
        StatsDirection::RX => up.0,
        StatsDirection::TX => up.1,
    };
    Ok((rx_bytes, tx_bytes))
}

/// What the controller last made of a direction.
#[derive(Clone, Copy, Debug, PartialEq, Eq, Structural)]
pub enum Status {
    /// Nothing yet.
    Init,
    /// The rate was lowered a short while ago, and is left alone.
    Cooldown,
    /// The delay is too long: the rate is lowered.
    Congestion,
    /// The delay is fine and the line is busy: the rate is raised.
    Probing,
    /// The delay is fine and the line is not busy: the rate is left alone.
    Hold,
}

impl Status {
    /// The status in capitals.
    pub open spec fn name(self) -> Seq<char> {
        match self {
            Status::Init => "INIT"@,
            Status::Cooldown => "COOLDOWN"@,
            Status::Congestion => "CONGESTION"@,
            Status::Probing => "PROBING"@,
            Status::Hold => "HOLD"@,
        }
    }

    /// The status in capitals.
    pub fn label(self) -> (r: &'static str)
        ensures
            r@ == self.name(),
    {
        match self {
            Status::Init => "INIT",
            Status::Cooldown => "COOLDOWN",
            Status::Congestion => "CONGESTION",
            Status::Probing => "PROBING",
            Status::Hold => "HOLD",
        }
    }
}

/// The controller's view of one direction. Rates are in kbit/s, delays in milliseconds,
/// times in nanoseconds.
#[derive(Debug)]
pub struct State {
    pub current_bytes: i128,
    pub current_rate: Float64,
    pub delta_stat: Float64,
    pub deltas: Vec<Float64>,
    pub load: Float64,
    pub next_rate: Float64,
    pub previous_bytes: i128,
    pub prev_t: u128,
    pub utilisation: Float64,
    pub cooldown_until: Option<u128>,
    pub congestion_ceiling: Float64,
    pub status: Status,
}

/// 0.0
pub open spec fn zero() -> Float64 {
    Float64 { bits: ZERO }
}

impl State {
    /// Whether nothing is known of the direction but its byte counter.
    pub open spec fn initial(&self, previous_bytes: i128, now: u128) -> bool {
        &&& self.current_bytes == 0
        &&& self.current_rate == zero()
        &&& self.delta_stat == zero()
        &&& self.deltas@ == Seq::<Float64>::empty()
        &&& self.load == zero()
        &&& self.next_rate == zero()
        &&& self.previous_bytes == previous_bytes
        &&& self.prev_t == now
        &&& self.utilisation == zero()
        &&& self.cooldown_until is None
        &&& self.congestion_ceiling == zero()
        &&& self.status == Status::Init
    }

    /// A direction of which only the byte counter is known.
    pub fn new(previous_bytes: i128, now: u128) -> (r: State)
        ensures
            r.initial(previous_bytes, now),
    {
        let zero: Float64 = Float64 { bits: ZERO };
        State {
            current_bytes: 0,
            current_rate: zero,
            delta_stat: zero,
            deltas: Vec::new(),
            load: zero,
            next_rate: zero,
            previous_bytes,
            prev_t: now,
            utilisation: zero,
            cooldown_until: None,
            congestion_ceiling: zero,
            status: Status::Init,
        }
    }

    /// How many seconds the cooldown still lasts; 0 where there is none.
    pub fn cooldown_left(&self, now: u128) -> (r: Float64)
        ensures
            r == match self.cooldown_until {
                Some(time) => if time > now {
                    seconds_of(time - now)
                } else {
                    zero()
                },
                None => zero(),
            },
    {
        match self.cooldown_until {
            Some(time) => if time > now {
                seconds_as_double(time - now)
            } else {
                Float64 { bits: ZERO }
            },
            None => Float64 { bits: ZERO },
        }
    }
}

/// The delay that counts: the third smallest, or the smallest where there are fewer.
pub open spec fn selected(deltas: Seq<Float64>) -> Float64 {
    if deltas.len() >= 3 {
        deltas[2]
    } else {
        deltas[0]
    }
}

/// Whether a cooldown that ends at `until` is still on at `now`.
pub open spec fn cooling(until: Option<u128>, now: u128) -> bool {
    match until {
        Some(time) => now < time,
        None => false,
    }
}

/// What is made of a delay; `None` where it is not positive, and nothing is made of it.
pub open spec fn verdict(
    delta: Float64,
    delay_ms: Float64,
    cooling: bool,
    load: Float64,
    high_load_level: Float64,
) -> Option<Status> {
    if !zero().below(delta) {
        None
    } else if cooling {
        Some(Status::Cooldown)
    } else if delay_ms.below(delta) {
        Some(Status::Congestion)
    } else if !delay_ms.nan() && high_load_level.below(load) {
        Some(Status::Probing)
    } else {
        Some(Status::Hold)
    }
}

/// The rate in kbit/s at which bytes were counted since the last time: 8 bits to a byte, 1000
/// of them to a kbit.
pub open spec fn utilisation_at(before: State, now: u128) -> Float64 {
    Float64::of_integer(8).divided_by(Float64::of_integer(1000)).times(
        Float64::of_integer(before.current_bytes as int).minus(
            Float64::of_integer(before.previous_bytes as int),
        ),
    ).divided_by(seconds_of(span(now, before.prev_t)))
}

/// The utilisation, as a share of the current rate.
pub open spec fn load_at(before: State, now: u128) -> Float64 {
    utilisation_at(before, now).divided_by(before.current_rate)
}

/// The rate after a cut: a share of the utilisation, or of half the current rate where that
/// is more, so that a delay on an idle line does not take the rate down with it.
pub open spec fn reduced(before: State, now: u128, decrease_multiplier: Float64) -> Float64 {
    utilisation_at(before, now).larger(before.current_rate.times(Float64 { bits: HALF })).times(
        decrease_multiplier,
    )
}

/// The rate that a verdict asks for.
pub open spec fn target(
    verdict: Option<Status>,
    before: State,
    limits: Limits,
    now: u128,
) -> Float64 {
    match verdict {
        Some(Status::Congestion) => reduced(before, now, limits.decrease_multiplier),
        Some(Status::Probing) => before.current_rate.plus(limits.increase_step),
        _ => before.current_rate,
    }
}

/// `rate` brought between the smallest and the largest rate. No largest rate is set where
/// `max` is not positive.
pub open spec fn clamped(rate: Float64, min: Float64, max: Float64) -> Float64 {
    let capped = if zero().below(max) {
        rate.smaller(max)
    } else {
        rate
    };
    capped.larger(min)
}

/// The settings that the rate of one direction depends on.
pub struct Limits {
    pub delay_ms: Float64,
    pub min_rate: Float64,
    pub max_rate: Float64,
    pub high_load_level: Float64,
    pub increase_step: Float64,
    pub decrease_multiplier: Float64,
    pub cooldown_secs: Float64,
}

/// The settings for `direction`.
pub open spec fn limits_of(config: Config, direction: Direction) -> Limits {
    Limits {
        delay_ms: if direction == Direction::Down {
            config.download_delay_ms
        } else {
            config.upload_delay_ms
        },
        min_rate: if direction == Direction::Down {
            config.download_min_kbits
        } else {
            config.upload_min_kbits
        },
        max_rate: if direction == Direction::Down {
            config.download_max_kbits
        } else {
            config.upload_max_kbits
        },
        high_load_level: config.high_load_level,
        increase_step: config.increase_step_kbits,
        decrease_multiplier: config.decrease_multiplier,
        cooldown_secs: config.cooldown_secs,
    }
}

/// What is made of the delays of a direction.
pub open spec fn verdict_on(before: State, limits: Limits, now: u128) -> Option<Status> {
    verdict(
        selected(before.deltas@),
        limits.delay_ms,
        cooling(before.cooldown_until, now),
        load_at(before, now),
        limits.high_load_level,
    )
}

/// Whether `after` is the state of a direction in which the next rate was calculated at `now`.
pub open spec fn calculated(before: State, after: State, limits: Limits, now: u128) -> bool {
    let verdict = verdict_on(before, limits, now);
    &&& after.current_bytes == before.current_bytes
    &&& after.current_rate == before.current_rate
    &&& after.deltas@ == before.deltas@
    &&& after.previous_bytes == before.current_bytes
    &&& after.prev_t == now
    &&& if before.deltas@.len() == 0 {
        &&& clamped(before.next_rate, limits.min_rate, limits.max_rate).rounds_down_to(
            after.next_rate,
        )
        &&& after.delta_stat == before.delta_stat
        &&& after.utilisation == before.utilisation
        &&& after.load == before.load
        &&& after.status == before.status
        &&& after.congestion_ceiling == before.congestion_ceiling
        &&& after.cooldown_until == before.cooldown_until
    } else {
        &&& clamped(
            target(verdict, before, limits, now),
            limits.min_rate,
            limits.max_rate,
        ).rounds_down_to(after.next_rate)
        &&& after.delta_stat == selected(before.deltas@)
        &&& match verdict {
            Some(status) => {
                &&& after.utilisation == utilisation_at(before, now)
                &&& after.load == load_at(before, now)
                &&& after.status == status
            },
            None => {
                &&& after.utilisation == before.utilisation
                &&& after.load == before.load
                &&& after.status == before.status
            },
        }
        &&& if verdict == Some(Status::Congestion) {
            &&& after.congestion_ceiling == utilisation_at(before, now)
            &&& after.cooldown_until is Some
            &&& limits.cooldown_secs.lasts(after.cooldown_until->0 - now)
        } else {
            &&& after.congestion_ceiling == before.congestion_ceiling
            &&& after.cooldown_until == before.cooldown_until
        }
    }
}

/// Whether the next rate of a direction can be calculated at `now`: a cut needs a cooldown
/// that is a length of time.
pub open spec fn can_calculate(state: State, limits: Limits, now: u128) -> bool {
    &&& now <= LONGEST_SPAN
    &&& state.deltas@.len() > 0 && verdict_on(state, limits, now) == Some(Status::Congestion)
        ==> limits.cooldown_secs.is_duration()
}

/// Whether the next rate of a direction can be calculated at `now`.
fn is_calculable(state: &State, limits: &Limits, now: u128) -> (r: bool)
    ensures
        r == can_calculate(*state, *limits, now),
{
    if now > LONGEST_SPAN {
        return false;
    }
    if limits.cooldown_secs.to_nanos().is_some() || state.deltas.len() == 0 {
        return true;
    }
    let delta: Float64 = if state.deltas.len() >= 3 {
        state.deltas[2]
    } else {
        state.deltas[0]
    };
    let in_cooldown: bool = match state.cooldown_until {
        Some(time) => now < time,
        None => false,
    };
    let zero: Float64 = Float64 { bits: ZERO };
    !zero.less_than(delta) || in_cooldown || !limits.delay_ms.less_than(delta)
}

/// Calculates the next rate of a direction.
fn calculate(state: &mut State, limits: &Limits, now: u128)
    requires
        can_calculate(*old(state), *limits, now),
    ensures
        calculated(*old(state), *final(state), *limits, now),
{
    let zero: Float64 = Float64 { bits: ZERO };
    let elapsed: u128 = nanos_between(now, state.prev_t);
    if state.deltas.len() > 0 {
        state.next_rate = state.current_rate;
        state.delta_stat = if state.deltas.len() >= 3 {
            state.deltas[2]
        } else {
            state.deltas[0]
        };
        if zero.less_than(state.delta_stat) {
            let bytes: Float64 = Float64::from_integer(state.current_bytes).subtract(
                Float64::from_integer(state.previous_bytes),
            );
            let factor: Float64 = Float64::from_integer(8).divide(Float64::from_integer(1000));
            state.utilisation = factor.multiply(bytes).divide(seconds_as_double(elapsed));
            state.load = state.utilisation.divide(state.current_rate);
            let in_cooldown: bool = match state.cooldown_until {
                Some(time) => now < time,
                None => false,
            };
            if in_cooldown {
                state.status = Status::Cooldown;
                state.next_rate = state.current_rate;
            } else if limits.delay_ms.less_than(state.delta_stat) {
                state.status = Status::Congestion;
                let effective_baseline: Float64 = state.utilisation.max(
                    state.current_rate.multiply(Float64 { bits: HALF }),
                );
                state.next_rate = effective_baseline.multiply(limits.decrease_multiplier);
                state.congestion_ceiling = state.utilisation;
                let cooldown: u128 = match limits.cooldown_secs.to_nanos() {
                    Some(nanos) => nanos,
                    None => 0,
                };
                state.cooldown_until = Some(now + cooldown);
            } else if !limits.delay_ms.is_nan() && limits.high_load_level.less_than(state.load) {
                state.status = Status::Probing;
                state.next_rate = state.current_rate.add_number(limits.increase_step);
            } else {
                state.status = Status::Hold;
                state.next_rate = state.current_rate;
            }
        }
    }
    if zero.less_than(limits.max_rate) {
        state.next_rate = state.next_rate.min(limits.max_rate);
    }
    state.next_rate = state.next_rate.max(limits.min_rate).floor();
    state.previous_bytes = state.current_bytes;
    state.prev_t = now;
}

impl Ranked for Float64 {
    open spec fn key(self) -> int {
        self.rank()
    }

    fn at_most(&self, other: &Self) -> (r: bool) {
        self.ranks_at_most(*other)
    }
}

/// Whether the delays of `reflector` are known and recent: less than `max_age` seconds old.
pub open spec fn counts(
    reflector: IpAddr,
    baseline: Map<IpAddr, ReflectorStats>,
    recent: Map<IpAddr, ReflectorStats>,
    now: u128,
    max_age: Float64,
) -> bool {
    &&& baseline.contains_key(reflector)
    &&& recent.contains_key(reflector)
    &&& seconds_of(span(now, recent[reflector].last_receive_time_s)).below(max_age)
}

/// The delay in `direction`.
pub open spec fn delay_in(stats: ReflectorStats, direction: Direction) -> Float64 {
    match direction {
        Direction::Down => stats.down_ewma,
        Direction::Up => stats.up_ewma,
    }
}

/// By how much the recent delays of those reflectors that count exceed their baselines.
pub open spec fn excess(
    reflectors: Seq<IpAddr>,
    baseline: Map<IpAddr, ReflectorStats>,
    recent: Map<IpAddr, ReflectorStats>,
    now: u128,
    max_age: Float64,
    direction: Direction,
) -> Seq<Float64> {
    reflectors.filter(|r: IpAddr| counts(r, baseline, recent, now, max_age)).map_values(
        |r: IpAddr| delay_in(recent[r], direction).minus(delay_in(baseline[r], direction)),
    )
}

/// The age in seconds at which delays do not count any more: two ticks.
pub open spec fn age_limit(config: Config) -> Float64 {
    config.tick_interval.times(Float64::of_integer(2))
}

/// How many delays there should be: three, or as many as there are reflectors.
pub open spec fn required_deltas(reflectors: nat) -> nat {
    if reflectors < 3 {
        reflectors
    } else {
        3
    }
}

/// Whether two states are the same, but for the delays.
pub open spec fn same_but_deltas(a: State, b: State) -> bool {
    &&& a.current_bytes == b.current_bytes
    &&& a.current_rate == b.current_rate
    &&& a.next_rate == b.next_rate
    &&& same_history(a, b)
}

/// Whether two states are the same, but for the delays, the current bytes and the rates.
pub open spec fn same_history(a: State, b: State) -> bool {
    &&& a.delta_stat == b.delta_stat
    &&& a.load == b.load
    &&& a.previous_bytes == b.previous_bytes
    &&& a.prev_t == b.prev_t
    &&& a.utilisation == b.utilisation
    &&& a.cooldown_until == b.cooldown_until
    &&& a.congestion_ceiling == b.congestion_ceiling
    &&& a.status == b.status
}

/// 0.95
pub const NINETY_FIVE_PERCENT: u64 = 0x3FEE_6666_6666_6666;

/// The rate to begin with, where the base rate is `base`.
pub open spec fn starting_rate(base: Float64) -> Float64 {
    base.times(Float64 { bits: NINETY_FIVE_PERCENT })
}

/// How many seconds to sleep between two looks at the rates.
pub open spec fn pause_secs(config: Config) -> Float64 {
    config.min_change_interval
}

/// The controller: its settings, and its view of both directions. Times are in nanoseconds.
pub struct Ratecontroller {
    pub config: Config,
    pub down_direction: StatsDirection,
    pub up_direction: StatsDirection,
    pub state_dl: State,
    pub state_ul: State,
    /// When the rates were last set.
    pub lastchg_t: u128,
    /// When the last sleep was over.
    pub woke_t: u128,
}

/// What happened.
pub enum Event<'a> {
    /// A sleep is over.
    Woke { now: u128 },
    /// The kernel was asked for the counters of the download and the upload interface.
    Stats {
        down: Result<(i128, i128), NetlinkError>,
        up: Result<(i128, i128), NetlinkError>,
    },
    /// The delays of the reflectors were looked up.
    Delays {
        reflectors: &'a Vec<IpAddr>,
        baseline: &'a AddrMap<ReflectorStats>,
        recent: &'a AddrMap<ReflectorStats>,
        now: u128,
    },
    /// The clock was read, once for each direction.
    Timed { down: u128, up: u128 },
}

/// What to do next.
#[derive(Debug, PartialEq, Eq, Structural)]
pub enum Action {
    /// Sleep.
    Sleep,
    /// Ask the kernel for the counters.
    ReadStats,
    /// Look up the delays.
    CollectDelays,
    /// No delays are known: set both rates, in kbit/s, and sleep. Where `reselect`, other
    /// reflectors are needed.
    Drop { download: u64, upload: u64, reselect: bool },
    /// Read the clock. Where `reselect`, other reflectors are needed.
    ReadClock { reselect: bool },
    /// Set the rates that are given, in kbit/s, write down the statistics, and sleep.
    Apply { download: Option<u64>, upload: Option<u64> },
}

/// The rate to set, where the next rate is another one than the current one.
pub open spec fn change(state: State) -> Option<u64> {
    if state.next_rate.same_number(state.current_rate) {
        None
    } else {
        Some(state.next_rate.truncated() as u64)
    }
}

/// Whether `after` is `before` with the next rate in force.
pub open spec fn in_force(before: State, after: State) -> bool {
    &&& after.current_rate == before.next_rate
    &&& after.next_rate == before.next_rate
    &&& after.current_bytes == before.current_bytes
    &&& after.deltas@ == before.deltas@
    &&& same_history(before, after)
}

impl Ratecontroller {
    /// Whether settings and interfaces are the same.
    pub open spec fn same_setup(&self, other: &Ratecontroller) -> bool {
        &&& self.config == other.config
        &&& self.down_direction == other.down_direction
        &&& self.up_direction == other.up_direction
    }

    /// Whether this is `before` after the delays were looked up.
    pub open spec fn updated(
        &self,
        before: &Ratecontroller,
        reflectors: Seq<IpAddr>,
        baseline: Map<IpAddr, ReflectorStats>,
        recent: Map<IpAddr, ReflectorStats>,
        now: u128,
    ) -> bool {
        let max_age = age_limit(before.config);
        &&& self.same_setup(before)
        &&& self.lastchg_t == before.lastchg_t
        &&& self.woke_t == before.woke_t
        &&& sorts(
            excess(reflectors, baseline, recent, now, max_age, Direction::Down),
            self.state_dl.deltas@,
        )
        &&& sorts(
            excess(reflectors, baseline, recent, now, max_age, Direction::Up),
            self.state_ul.deltas@,
        )
    }

    /// Whether this is `before`, and `action` what to do, after `event`. `mid` is what was
    /// in between, when the rates were calculated and not yet in force.
    pub open spec fn follows(
        &self,
        before: &Ratecontroller,
        event: Event,
        mid: &Ratecontroller,
        action: Result<Action, RatecontrolError>,
    ) -> bool {
        &&& self.same_setup(before)
        &&& match event {
            Event::Woke { now } => {
                &&& self.state_dl == before.state_dl
                &&& self.state_ul == before.state_ul
                &&& self.lastchg_t == before.lastchg_t
                &&& self.woke_t == now
                &&& action == Ok::<Action, RatecontrolError>(
                    if before.config.min_change_interval.below(
                        seconds_of(span(now, before.lastchg_t)),
                    ) {
                        Action::ReadStats
                    } else {
                        Action::Sleep
                    },
                )
            },
            Event::Stats { down: Ok(down), up: Ok(up) } => {
                let rx = counter(down, before.down_direction);
                let tx = counter(up, before.up_direction);
                &&& self.state_dl == (State { current_bytes: rx, ..before.state_dl })
                &&& self.state_ul == (State { current_bytes: tx, ..before.state_ul })
                &&& self.lastchg_t == before.lastchg_t
                &&& self.woke_t == before.woke_t
                &&& action == Ok::<Action, RatecontrolError>(
                    if rx == -1 || tx == -1 {
                        Action::Sleep
                    } else {
                        Action::CollectDelays
                    },
                )
            },
            Event::Stats { down, up } => {
                &&& *self == *before
                &&& action == Err::<Action, RatecontrolError>(
                    RatecontrolError::Netlink(
                        match down {
                            Err(e) => e,
                            Ok(_) => up->Err_0,
                        },
                    ),
                )
            },
            Event::Delays { reflectors, baseline, recent, now } => {
                let found = self.state_dl.deltas@.len();
                let reselect = found < required_deltas(reflectors@.len());
                &&& self.updated(before, reflectors@, baseline@, recent@, now)
                &&& same_history(before.state_dl, self.state_dl)
                &&& same_history(before.state_ul, self.state_ul)
                &&& self.state_dl.current_bytes == before.state_dl.current_bytes
                &&& self.state_ul.current_bytes == before.state_ul.current_bytes
                &&& if found == 0 {
                    &&& self.state_dl.next_rate == before.config.download_min_kbits
                    &&& self.state_ul.next_rate == before.config.upload_min_kbits
                    &&& self.state_dl.current_rate == self.state_dl.next_rate
                    &&& self.state_ul.current_rate == self.state_ul.next_rate
                    &&& action == Ok::<Action, RatecontrolError>(
                        Action::Drop {
                            download: before.config.download_min_kbits.truncated() as u64,
                            upload: before.config.upload_min_kbits.truncated() as u64,
                            reselect,
                        },
                    )
                } else {
                    &&& same_but_deltas(before.state_dl, self.state_dl)
                    &&& same_but_deltas(before.state_ul, self.state_ul)
                    &&& action == Ok::<Action, RatecontrolError>(Action::ReadClock { reselect })
                }
            },
            Event::Timed { down, up } => {
                &&& calculated(
                    before.state_dl,
                    mid.state_dl,
                    limits_of(before.config, Direction::Down),
                    down,
                )
                &&& calculated(
                    before.state_ul,
                    mid.state_ul,
                    limits_of(before.config, Direction::Up),
                    up,
                )
                &&& in_force(mid.state_dl, self.state_dl)
                &&& in_force(mid.state_ul, self.state_ul)
                &&& self.lastchg_t == before.woke_t
                &&& self.woke_t == before.woke_t
                &&& action == Ok::<Action, RatecontrolError>(
                    Action::Apply { download: change(mid.state_dl), upload: change(mid.state_ul) },
                )
            },
        }
    }

    /// A controller that has not set any rate yet. `down` and `up` are what the kernel said
    /// of the two interfaces.
    pub fn new(
        config: Config,
        down_direction: StatsDirection,
        up_direction: StatsDirection,
        down: Result<(i128, i128), NetlinkError>,
        up: Result<(i128, i128), NetlinkError>,
        now: u128,
    ) -> (r: Result<Ratecontroller, RatecontrolError>)
        ensures
            match (down, up) {
                (Ok(d), Ok(u)) => {
                    &&& r is Ok
                    &&& r->Ok_0.config == config
                    &&& r->Ok_0.down_direction == down_direction
                    &&& r->Ok_0.up_direction == up_direction
                    &&& r->Ok_0.state_dl.initial(counter(d, down_direction), now)
                    &&& r->Ok_0.state_ul.initial(counter(u, up_direction), now)
                    &&& r->Ok_0.lastchg_t == now
                    &&& r->Ok_0.woke_t == now
                },
                (Err(e), _) => r == Err::<Ratecontroller, RatecontrolError>(
                    RatecontrolError::Netlink(e),
                ),
                (Ok(_), Err(e)) => r == Err::<Ratecontroller, RatecontrolError>(
                    RatecontrolError::Netlink(e),
                ),
            },
    {
        let (cur_rx, cur_tx) = match get_interface_stats(down, up, down_direction, up_direction) {
            Ok(bytes) => bytes,
            Err(e) => {
                return Err(e);
            },
        };
        Ok(
            Ratecontroller {
                config,
                down_direction,
                up_direction,
                state_dl: State::new(cur_rx, now),
                state_ul: State::new(cur_tx, now),
                lastchg_t: now,
                woke_t: now,
            },
        )
    }

    /// The settings for `direction`.
    fn limits(&self, direction: Direction) -> (r: Limits)
        ensures
            r == limits_of(self.config, direction),
    {
        let (delay_ms, min_rate, max_rate) = if direction == Direction::Down {
            (
                self.config.download_delay_ms,
                self.config.download_min_kbits,
                self.config.download_max_kbits,
            )
        } else {
            (
                self.config.upload_delay_ms,
                self.config.upload_min_kbits,
                self.config.upload_max_kbits,
            )
        };
        Limits {
            delay_ms,
            min_rate,
            max_rate,
            high_load_level: self.config.high_load_level,
            increase_step: self.config.increase_step_kbits,
            decrease_multiplier: self.config.decrease_multiplier,
            cooldown_secs: self.config.cooldown_secs,
        }
    }

    /// Whether the next rates can be calculated at the given times. They cannot where the
    /// rate is to be cut, and the cooldown is no length of time.
    pub fn can_calculate_rates(&self, down: u128, up: u128) -> (r: bool)
        ensures
            r == (can_calculate(self.state_dl, limits_of(self.config, Direction::Down), down)
                && can_calculate(self.state_ul, limits_of(self.config, Direction::Up), up)),
    {
        is_calculable(&self.state_dl, &self.limits(Direction::Down), down) && is_calculable(
            &self.state_ul,
            &self.limits(Direction::Up),
            up,
        )
    }

    /// Calculates the next rate of `direction`.
    pub fn calculate_rate(&mut self, direction: Direction, now: u128)
        requires
            match direction {
                Direction::Down => can_calculate(
                    old(self).state_dl,
                    limits_of(old(self).config, direction),
                    now,
                ),
                Direction::Up => can_calculate(
                    old(self).state_ul,
                    limits_of(old(self).config, direction),
                    now,
                ),
            },
        ensures
            final(self).same_setup(old(self)),
            final(self).lastchg_t == old(self).lastchg_t,
            final(self).woke_t == old(self).woke_t,
            match direction {
                Direction::Down => {
                    &&& calculated(
                        old(self).state_dl,
                        final(self).state_dl,
                        limits_of(old(self).config, direction),
                        now,
                    )
                    &&& final(self).state_ul == old(self).state_ul
                },
                Direction::Up => {
                    &&& calculated(
                        old(self).state_ul,
                        final(self).state_ul,
                        limits_of(old(self).config, direction),
                        now,
                    )
                    &&& final(self).state_dl == old(self).state_dl
                },
            },
    {
        let limits: Limits = self.limits(direction);
        match direction {
            Direction::Down => calculate(&mut self.state_dl, &limits, now),
            Direction::Up => calculate(&mut self.state_ul, &limits, now),
        }
    }

    /// Looks up by how much the recent delays exceed their baselines. The result says
    /// whether these are too few, so that other reflectors are needed.
    pub fn update_deltas(
        &mut self,
        reflectors: &Vec<IpAddr>,
        baseline: &AddrMap<ReflectorStats>,
        recent: &AddrMap<ReflectorStats>,
        now: u128,
    ) -> (reselect: bool)
        ensures
            final(self).updated(old(self), reflectors@, baseline@, recent@, now),
            same_but_deltas(old(self).state_dl, final(self).state_dl),
            same_but_deltas(old(self).state_ul, final(self).state_ul),
            final(self).state_dl.deltas@.len() == final(self).state_ul.deltas@.len(),
            reselect == (final(self).state_dl.deltas@.len() < required_deltas(reflectors@.len())),
    {
        let max_age: Float64 = self.config.tick_interval.multiply(Float64::from_integer(2));
        let mut down: Vec<Float64> = Vec::new();
        let mut up: Vec<Float64> = Vec::new();
        let mut i: usize = 0;
        let ghost p = |r: IpAddr| counts(r, baseline@, recent@, now, max_age);
        proof {
            reveal(Seq::filter);
            assert(reflectors@.take(0) == Seq::<IpAddr>::empty());
        }
        while i < reflectors.len()
            invariant
                i <= reflectors.len(),
                p == (|r: IpAddr| counts(r, baseline@, recent@, now, max_age)),
                down@ == excess(
                    reflectors@.take(i as int),
                    baseline@,
                    recent@,
                    now,
                    max_age,
                    Direction::Down,
                ),
                up@ == excess(
                    reflectors@.take(i as int),
                    baseline@,
                    recent@,
                    now,
                    max_age,
                    Direction::Up,
                ),
                down@.len() == up@.len(),
            decreases reflectors.len() - i,
        {
            let reflector: IpAddr = reflectors[i];
            proof {
                reveal(Seq::filter);
                assert(reflectors@.take(i + 1).drop_last() == reflectors@.take(i as int));
                assert(reflectors@.take(i + 1).last() == reflector);
            }
            match (baseline.get(reflector), recent.get(reflector)) {
                (Some(usual), Some(latest)) => {
                    let age: Float64 = seconds_as_double(
                        nanos_between(now, latest.last_receive_time_s),
                    );
                    if age.less_than(max_age) {
                        down.push(latest.down_ewma.subtract(usual.down_ewma));
                        up.push(latest.up_ewma.subtract(usual.up_ewma));
                    }
                },
                _ => {},
            }
            i = i + 1;
        }
        assert(reflectors@.take(i as int) == reflectors@);
        self.state_dl.deltas = sort(&down);
        self.state_ul.deltas = sort(&up);
        let required: usize = if reflectors.len() < 3 {
            reflectors.len()
        } else {
            3
        };
        self.state_dl.deltas.len() < required || self.state_ul.deltas.len() < required
    }

    /// Begins: the rates are to be 95 % of the base rates, so as not to be trapped by a load.
    /// The result is the two rates to set, in kbit/s.
    pub fn start(&mut self, now: u128) -> (r: (u64, u64))
        ensures
            final(self).same_setup(old(self)),
            final(self).lastchg_t == now,
            final(self).woke_t == now,
            final(self).state_dl == (State {
                current_rate: starting_rate(old(self).config.download_base_kbits),
                ..old(self).state_dl
            }),
            final(self).state_ul == (State {
                current_rate: starting_rate(old(self).config.upload_base_kbits),
                ..old(self).state_ul
            }),
            r.0 == final(self).state_dl.current_rate.nearest(),
            r.1 == final(self).state_ul.current_rate.nearest(),
    {
        let share: Float64 = Float64 { bits: NINETY_FIVE_PERCENT };
        self.lastchg_t = now;
        self.woke_t = now;
        self.state_dl.current_rate = self.config.download_base_kbits.multiply(share);
        self.state_ul.current_rate = self.config.upload_base_kbits.multiply(share);
        (self.state_dl.current_rate.round_to_u64(), self.state_ul.current_rate.round_to_u64())
    }

    /// How long to sleep, in nanoseconds; `None` where the setting is no length of time.
    pub fn sleep_time(&self) -> (r: Option<u128>)
        ensures
            match r {
                Some(nanos) => {
                    &&& pause_secs(self.config).is_duration()
                    &&& pause_secs(self.config).lasts(nanos as int)
                },
                None => !pause_secs(self.config).is_duration(),
            },
    {
        self.config.min_change_interval.to_nanos()
    }

    /// Takes in what happened, and says what to do next.
    pub fn advance(&mut self, event: Event) -> (r: Result<Action, RatecontrolError>)
        requires
            event matches Event::Timed { down, up } ==> {
                &&& can_calculate(
                    old(self).state_dl,
                    limits_of(old(self).config, Direction::Down),
                    down,
                )
                &&& can_calculate(
                    old(self).state_ul,
                    limits_of(old(self).config, Direction::Up),
                    up,
                )
            },
        ensures
            exists|mid: Ratecontroller| #[trigger]
                final(self).follows(old(self), event, &mid, r),
    {
        match event {
            Event::Woke { now } => {
                self.woke_t = now;
                let elapsed: Float64 = seconds_as_double(nanos_between(now, self.lastchg_t));
                let r = if self.config.min_change_interval.less_than(elapsed) {
                    Ok(Action::ReadStats)
                } else {
                    Ok(Action::Sleep)
                };
                assert(self.follows(old(self), event, self, r));
                r
            },
            Event::Stats { down, up } => {
                match get_interface_stats(down, up, self.down_direction, self.up_direction) {
                    Err(e) => {
                        let r = Err(e);
                        assert(self.follows(old(self), event, self, r));
                        r
                    },
                    Ok((rx, tx)) => {
                        self.state_dl.current_bytes = rx;
                        self.state_ul.current_bytes = tx;
                        let r = if rx == -1 || tx == -1 {
                            Ok(Action::Sleep)
                        } else {
                            Ok(Action::CollectDelays)
                        };
                        assert(self.follows(old(self), event, self, r));
                        r
                    },
                }
            },
            Event::Delays { reflectors, baseline, recent, now } => {
                let reselect: bool = self.update_deltas(reflectors, baseline, recent, now);
                let r = if self.state_dl.deltas.len() == 0 || self.state_ul.deltas.len() == 0 {
                    self.state_dl.next_rate = self.config.download_min_kbits;
                    self.state_ul.next_rate = self.config.upload_min_kbits;
                    let download: u64 = self.state_dl.next_rate.to_u64();
                    let upload: u64 = self.state_ul.next_rate.to_u64();
                    self.state_dl.current_rate = self.state_dl.next_rate;
                    self.state_ul.current_rate = self.state_ul.next_rate;
                    Ok(Action::Drop { download, upload, reselect })
                } else {
                    Ok(Action::ReadClock { reselect })
                };
                assert(self.follows(old(self), event, self, r));
                r
            },
            Event::Timed { down, up } => {
                self.calculate_rate(Direction::Down, down);
                self.calculate_rate(Direction::Up, up);
                let ghost mid = *self;
                let download: Option<u64> = Self::change_of(&self.state_dl);
                let upload: Option<u64> = Self::change_of(&self.state_ul);
                self.state_dl.current_rate = self.state_dl.next_rate;
                self.state_ul.current_rate = self.state_ul.next_rate;
                self.lastchg_t = self.woke_t;
                let r = Ok(Action::Apply { download, upload });
                assert(self.follows(old(self), event, &mid, r));
                r
            },
        }
    }

    /// The rate to set, where the next rate is another one than the current one.
    fn change_of(state: &State) -> (r: Option<u64>)
        ensures
            r == change(*state),
    {
        if state.next_rate.equals(state.current_rate) {
            None
        } else {
            Some(state.next_rate.to_u64())
        }
    }
}

/// What stands between the infinities lies between them.
proof fn lemma_between_infinities(x: Float64, infinite: Float64)
    requires
        !x.nan(),
        infinite.pattern() == INFINITY_BITS,
    ensures
        infinite.negative() ==> infinite.value() <= x.value(),
        !infinite.negative() ==> x.value() <= infinite.value(),
{
    lemma_value_order(x, infinite);
}

/// Of two whole numbers, one that is less than the other and one more is at most the other.
pub proof fn lemma_whole_order(a: int, b: int)
    requires
        a % unit() == 0,
        b % unit() == 0,
        a < b + unit(),
    ensures
        a <= b,
{
    lemma_pow2_pos(1074);
    lemma_fundamental_div_mod(a, unit());
    lemma_fundamental_div_mod(b, unit());
    let u = unit();
    let x = a / u;
    let y = b / u;
    assert(x <= y) by (nonlinear_arith)
        requires
            u * x < u * y + u,
            u > 0,
    ;
    assert(u * x <= u * y) by (nonlinear_arith)
        requires
            x <= y,
            u > 0,
    ;
}

/// The next rate is a number, is at least the smallest rate rounded down, and is at most the
/// largest rate, where one is set and is not less than the smallest.
pub proof fn law_rate_stays_within_limits(
    before: State,
    after: State,
    limits: Limits,
    now: u128,
    lowest: Float64,
)
    requires
        calculated(before, after, limits, now),
        !limits.min_rate.nan(),
        limits.min_rate.rounds_down_to(lowest),
    ensures
        !after.next_rate.nan(),
        !after.next_rate.below(lowest),
        zero().below(limits.max_rate) && !limits.max_rate.below(limits.min_rate)
            ==> !limits.max_rate.below(after.next_rate),
{
    let wanted = if before.deltas@.len() == 0 {
        before.next_rate
    } else {
        target(verdict_on(before, limits, now), before, limits, now)
    };
    let rate = clamped(wanted, limits.min_rate, limits.max_rate);
    assert(!rate.nan());
    assert(limits.min_rate.value() <= rate.value());
    assert(lowest.value() <= limits.min_rate.value());
    if !rate.finite() {
        assert(after.next_rate == rate);
    } else if !limits.min_rate.finite() {
        lemma_between_infinities(rate, limits.min_rate);
        lemma_between_infinities(after.next_rate, limits.min_rate);
        if !limits.min_rate.negative() {
            lemma_value_order(rate, limits.min_rate);
        }
    } else {
        lemma_whole_order(lowest.value(), after.next_rate.value());
    }
}

/// During a cooldown a whole rate within the limits stays as it is, no command is given, and
/// the cooldown is not made longer.
pub proof fn law_rate_holds_in_cooldown(before: State, after: State, limits: Limits, now: u128)
    requires
        calculated(before, after, limits, now),
        before.deltas@.len() > 0,
        cooling(before.cooldown_until, now),
        before.current_rate.finite(),
        before.current_rate.value() % unit() == 0,
        !before.current_rate.below(limits.min_rate),
        zero().below(limits.max_rate) ==> !limits.max_rate.below(before.current_rate),
    ensures
        after.next_rate.same_number(before.current_rate),
        change(after) is None,
        after.cooldown_until == before.cooldown_until,
{
    let rate = clamped(before.current_rate, limits.min_rate, limits.max_rate);
    assert(rate.same_number(before.current_rate));
    if rate.finite() {
        lemma_whole_order(before.current_rate.value(), after.next_rate.value());
    } else {
        lemma_value_order(rate, before.current_rate);
    }
}

/// A cut is calculated from no less than half the current rate, however idle the line was.
pub proof fn law_cut_starts_from_half(before: State, now: u128, decrease_multiplier: Float64)
    ensures
        ({
            let half = before.current_rate.times(Float64 { bits: HALF });
            let base = utilisation_at(before, now).larger(half);
            &&& !base.below(half)
            &&& reduced(before, now, decrease_multiplier) == base.times(decrease_multiplier)
        }),
{
}

/// 0.5 is a share.
proof fn lemma_half_is_a_share()
    ensures
        ({
            let half = Float64 { bits: HALF };
            half.finite() && 0 <= half.value() <= unit()
        }),
{
    lemma_magnitude_split(1022, 0);
    lemma_pow2_adds(53, 1021);
    lemma2_to64_rest();
    lemma_pow2_pos(1021);
    let p = pow2(1021) as int;
    assert(0 <= 0x10_0000_0000_0000 * p <= 0x20_0000_0000_0000 * p) by (nonlinear_arith)
        requires
            p > 0,
    ;
}

/// A cut never raises the rate, where the line was used no more than the rate allows, the
/// multiplier is a share, and the rate was within the limits.
pub proof fn law_cuts_do_not_raise(before: State, after: State, limits: Limits, now: u128)
    requires
        calculated(before, after, limits, now),
        before.deltas@.len() > 0,
        verdict_on(before, limits, now) == Some(Status::Congestion),
        before.current_rate.finite(),
        before.current_rate.value() >= 0,
        !before.current_rate.below(utilisation_at(before, now)),
        limits.decrease_multiplier.finite(),
        0 <= limits.decrease_multiplier.value() <= unit(),
        !before.current_rate.below(limits.min_rate),
    ensures
        !before.current_rate.below(after.next_rate),
{
    let rate = before.current_rate;
    let used = utilisation_at(before, now);
    let half = rate.times(Float64 { bits: HALF });
    let base = used.larger(half);
    lemma_half_is_a_share();
    law_shares_are_no_more(rate, Float64 { bits: HALF });
    lemma_value_order(base, rate);
    assert(0 <= base.value() <= rate.value());
    assert(base.finite());
    law_shares_are_no_more(base, limits.decrease_multiplier);
    let limited = clamped(
        base.times(limits.decrease_multiplier),
        limits.min_rate,
        limits.max_rate,
    );
    assert(limited.value() <= rate.value());
}

/// Probing never lowers a whole rate that is no larger than the largest, where the step is
/// not negative.
pub proof fn law_probing_does_not_lower(before: State, after: State, limits: Limits, now: u128)
    requires
        calculated(before, after, limits, now),
        before.deltas@.len() > 0,
        verdict_on(before, limits, now) == Some(Status::Probing),
        before.current_rate.finite(),
        before.current_rate.value() >= 0,
        before.current_rate.value() % unit() == 0,
        !limits.increase_step.nan(),
        limits.increase_step.value() >= 0,
        zero().below(limits.max_rate) ==> !limits.max_rate.below(before.current_rate),
    ensures
        !after.next_rate.below(before.current_rate),
{
    let rate = before.current_rate;
    law_sums_are_no_less(rate, limits.increase_step);
    let limited = clamped(
        rate.plus(limits.increase_step),
        limits.min_rate,
        limits.max_rate,
    );
    assert(limited.value() >= rate.value());
    if limited.finite() {
        lemma_whole_order(rate.value(), after.next_rate.value());
    }
}

/// One calculation of the rate of a direction, for laws: the state before and after, and the time.
pub struct Step {
    pub before: State,
    pub after: State,
    pub now: u128,
}

impl Step {
    /// Whether the rate was lowered.
    pub open spec fn cuts(self, limits: Limits) -> bool {
        self.before.deltas@.len() > 0 && verdict_on(self.before, limits, self.now) == Some(
            Status::Congestion,
        )
    }
}

/// Whether `steps` follow one another. Bytes and delays may change between them.
pub open spec fn consecutive(steps: Seq<Step>, limits: Limits) -> bool {
    &&& forall|k: int|
        0 <= k < steps.len() ==> {
            let step = #[trigger] steps[k];
            calculated(step.before, step.after, limits, step.now)
        }
    &&& forall|k: int, l: int|
        #![trigger steps[k], steps[l]]
        0 <= k < steps.len() && l == k + 1 && l < steps.len() ==> steps[l].before.cooldown_until
            == steps[k].after.cooldown_until
}

/// Between two cuts lies at least the length of a cooldown.
pub proof fn law_cuts_are_spaced(steps: Seq<Step>, limits: Limits, i: int, j: int)
    requires
        consecutive(steps, limits),
        limits.cooldown_secs.is_duration(),
        0 <= i < j < steps.len(),
        steps[i].cuts(limits),
        steps[j].cuts(limits),
    ensures
        exists|pause: int|
            #![trigger limits.cooldown_secs.lasts(pause)]
            limits.cooldown_secs.lasts(pause) && steps[i].now + pause <= steps[j].now,
{
    lemma_cooldown_kept(steps, limits, i, j);
    assert(!cooling(steps[j].before.cooldown_until, steps[j].now));
    let pause = steps[i].after.cooldown_until->0 - steps[i].now;
    assert(limits.cooldown_secs.lasts(pause));
}

/// After a cut, cooldowns end no earlier than the one that it began.
proof fn lemma_cooldown_kept(steps: Seq<Step>, limits: Limits, i: int, j: int)
    requires
        consecutive(steps, limits),
        limits.cooldown_secs.is_duration(),
        0 <= i < j < steps.len(),
        steps[i].cuts(limits),
    ensures
        steps[i].after.cooldown_until is Some,
        steps[j].before.cooldown_until is Some,
        steps[i].after.cooldown_until->0 <= steps[j].before.cooldown_until->0,
    decreases j - i,
{
    let first = steps[i];
    assert(calculated(first.before, first.after, limits, first.now));
    let last = steps[j - 1];
    assert(steps[j].before.cooldown_until == last.after.cooldown_until);
    if i < j - 1 {
        lemma_cooldown_kept(steps, limits, i, j - 1);
        assert(calculated(last.before, last.after, limits, last.now));
        if last.cuts(limits) {
            let pause = last.after.cooldown_until->0 - last.now;
            lemma_pow2_pos(1074);
            let u = unit();
            assert(pause >= 0) by (nonlinear_arith)
                requires
                    0 <= (2 * pause + 1) * u,
                    u > 0,
            ;
        }
    }
}

/// Whether a shaper that was told `told` runs at `rate`, as far as a whole number can say.
pub open spec fn in_step(told: u64, rate: Float64) -> bool {
    rate.finite() && rate.value() % unit() == 0 ==> told == rate.truncated()
}

/// What the shapers of the download and the upload were last told.
pub open spec fn told(before: (u64, u64), action: Action) -> (u64, u64) {
    match action {
        Action::Drop { download, upload, .. } => (download, upload),
        Action::Apply { download, upload } => (
            match download {
                Some(rate) => rate,
                None => before.0,
            },
            match upload {
                Some(rate) => rate,
                None => before.1,
            },
        ),
        _ => before,
    }
}

/// The rates that the controller begins with are those that it tells the shapers.
pub proof fn law_shapers_start_in_step(rate: Float64, told: u64)
    requires
        told == rate.nearest(),
    ensures
        in_step(told, rate),
{
    if rate.finite() && rate.value() % unit() == 0 {
        lemma_pow2_pos(1074);
        let u = unit();
        let v = rate.value();
        let k = v / u;
        lemma_fundamental_div_mod(v, u);
        assert(2 * v + u == k * (2 * u) + u) by (nonlinear_arith)
            requires
                v == u * k,
        ;
        lemma_fundamental_div_mod_converse(2 * v + u, 2 * u, k, u);
    }
}

/// A number without its fraction, held within the range of `u64`, is in that range.
proof fn lemma_truncated_range(x: Float64)
    ensures
        0 <= x.truncated() <= u64::MAX,
{
    lemma_pow2_pos(1074);
    if x.value() >= 0 {
        lemma_div_pos_is_pos(x.value(), unit());
    }
}

/// Whatever happens, the shapers run at the rates that the controller takes them to run at.
pub proof fn law_shapers_stay_in_step(
    before: Ratecontroller,
    event: Event,
    mid: Ratecontroller,
    action: Action,
    after: Ratecontroller,
    shapers: (u64, u64),
)
    requires
        after.follows(&before, event, &mid, Ok(action)),
        in_step(shapers.0, before.state_dl.current_rate),
        in_step(shapers.1, before.state_ul.current_rate),
    ensures
        in_step(told(shapers, action).0, after.state_dl.current_rate),
        in_step(told(shapers, action).1, after.state_ul.current_rate),
{
    lemma_truncated_range(after.state_dl.current_rate);
    lemma_truncated_range(after.state_ul.current_rate);
    lemma_value_order(before.state_dl.current_rate, after.state_dl.current_rate);
    lemma_value_order(before.state_ul.current_rate, after.state_ul.current_rate);
}

} // verus!
