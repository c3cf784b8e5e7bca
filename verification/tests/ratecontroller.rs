use sqm_autorate::address::{ipv4, AddrMap, IpAddr};
use sqm_autorate::config::{Config, Key, Setting, Settings, KEYS};
use sqm_autorate::float64::Float64;
use sqm_autorate::pinger::ReflectorStats;
use sqm_autorate::ratecontroller::{
    get_interface_stats, Action, Direction, Event, NetlinkError, RatecontrolError, Ratecontroller,
    State, StatsDirection, Status,
};
use sqm_autorate::startup::settling_rates;

const SECOND: u128 = 1_000_000_000;

fn double(x: f64) -> Float64 {
    Float64 { bits: x.to_bits() }
}

fn native(x: Float64) -> f64 {
    f64::from_bits(x.bits)
}

fn config() -> Config {
    let mut given = Vec::new();
    for i in 0..KEYS {
        let text = match Key::at(i) {
            Key::DownloadBaseKbits => Some("50000"),
            Key::UploadBaseKbits => Some("10010"),
            Key::DownloadInterface => Some("ifb4eth0"),
            Key::UploadInterface => Some("eth0"),
            _ => None,
        };
        given.push(Setting {
            text: text.map(|t| t.to_string()),
            number: text.and_then(|t| t.parse::<f64>().ok()).map(double),
        });
    }
    Config::new(&Settings { given }).unwrap()
}

fn controller(config: Config) -> Ratecontroller {
    Ratecontroller::new(
        config,
        StatsDirection::TX,
        StatsDirection::TX,
        Ok((1, 1000)),
        Ok((2, 2000)),
        0,
    )
    .unwrap()
}

fn host(n: u8) -> IpAddr {
    ipv4(10, 0, 0, n)
}

/// Delays of as many reflectors as there are pairs (down, up), all measured at `at`.
fn delays(pairs: &[(f64, f64)], at: u128) -> AddrMap<ReflectorStats> {
    let mut map = AddrMap::new();
    for (n, (down, up)) in pairs.iter().enumerate() {
        map.insert(
            host(n as u8),
            ReflectorStats {
                last_receive_time_s: at,
                down_ewma: double(*down),
                up_ewma: double(*up),
            },
        );
    }
    map
}

fn hosts(n: u8) -> Vec<IpAddr> {
    (0..n).map(host).collect()
}

fn error(text: &str) -> NetlinkError {
    NetlinkError { message: text.to_string() }
}

/// A download state with the given delays, ready to be calculated.
fn with_download(delta: f64, rate: f64, bytes: i128, cooldown_until: Option<u128>) -> Ratecontroller {
    let mut c = controller(config());
    c.state_dl.deltas = vec![double(delta)];
    c.state_dl.current_rate = double(rate);
    c.state_dl.previous_bytes = 0;
    c.state_dl.current_bytes = bytes;
    c.state_dl.prev_t = 0;
    c.state_dl.cooldown_until = cooldown_until;
    c
}

#[test]
fn counters_are_picked_by_direction() {
    let rx = StatsDirection::RX;
    let tx = StatsDirection::TX;
    assert_eq!(get_interface_stats(Ok((1, 2)), Ok((3, 4)), rx, tx).unwrap(), (1, 4));
    assert_eq!(get_interface_stats(Ok((1, 2)), Ok((3, 4)), tx, rx).unwrap(), (2, 3));
    let e = get_interface_stats(Err(error("down")), Err(error("up")), rx, tx).unwrap_err();
    assert_eq!(e.message(), "Netlink error");
    assert!(matches!(e, RatecontrolError::Netlink(e) if e.message == "down"));
    let e = get_interface_stats(Ok((1, 2)), Err(error("up")), rx, tx).unwrap_err();
    assert!(matches!(e, RatecontrolError::Netlink(e) if e.message == "up"));
}

#[test]
fn a_new_controller_knows_the_counters_only() {
    let c = controller(config());
    assert_eq!(c.state_dl.previous_bytes, 1000);
    assert_eq!(c.state_ul.previous_bytes, 2000);
    assert_eq!(c.state_dl.status, Status::Init);
    assert_eq!(c.state_dl.status.label(), "INIT");
    assert_eq!(c.state_dl.cooldown_until, None);
    let s = State::new(7, 9);
    assert_eq!((s.previous_bytes, s.prev_t, s.current_bytes), (7, 9, 0));
    assert!(Ratecontroller::new(
        config(),
        StatsDirection::RX,
        StatsDirection::TX,
        Ok((0, 0)),
        Err(error("x")),
        0
    )
    .is_err());
}

#[test]
fn it_starts_at_95_percent() {
    let mut c = controller(config());
    assert_eq!(c.start(SECOND), (47500, 9510));
    assert_eq!(native(c.state_dl.current_rate), 50000.0 * 0.95);
    assert_eq!(native(c.state_ul.current_rate), 10010.0 * 0.95);
    assert_eq!(c.lastchg_t, SECOND);
    assert_eq!(settling_rates(&c.config), (1000, 1000));
    assert_eq!(c.sleep_time(), Some(500_000_000));
    c.config.min_change_interval = double(f64::NAN);
    assert_eq!(c.sleep_time(), None);
}

#[test]
fn congestion_cuts_the_rate_and_starts_a_cooldown() {
    // 5 000 000 bytes in a second are 40 000 kbit/s.
    let mut c = with_download(20.5, 50000.0, 5_000_000, None);
    c.calculate_rate(Direction::Down, SECOND);
    assert_eq!(c.state_dl.status, Status::Congestion);
    assert_eq!(c.state_dl.status.label(), "CONGESTION");
    assert_eq!(native(c.state_dl.utilisation), (8.0 / 1000.0) * 5_000_000.0 / 1.0);
    assert_eq!(native(c.state_dl.load), 0.8);
    assert_eq!(native(c.state_dl.next_rate), 34000.0);
    assert_eq!(native(c.state_dl.congestion_ceiling), 40000.0);
    assert_eq!(c.state_dl.cooldown_until, Some(11 * SECOND));
    assert_eq!(c.state_dl.previous_bytes, 5_000_000);
    assert_eq!(c.state_dl.prev_t, SECOND);
    assert_eq!(native(c.state_dl.cooldown_left(2 * SECOND)), 9.0);
    assert_eq!(native(c.state_dl.cooldown_left(11 * SECOND)), 0.0);
    assert_eq!(native(c.state_ul.cooldown_left(0)), 0.0);
}

#[test]
fn a_cut_starts_from_half_the_rate_at_least() {
    let mut c = with_download(25.0, 50000.0, 125, None);
    c.calculate_rate(Direction::Down, SECOND);
    assert_eq!(native(c.state_dl.next_rate), (25000.0f64 * 0.85).floor());
}

#[test]
fn a_busy_line_without_delay_is_probed() {
    let mut c = with_download(20.0, 50000.0, 5_000_000, None);
    c.calculate_rate(Direction::Down, SECOND);
    assert_eq!(c.state_dl.status, Status::Probing);
    assert_eq!(c.state_dl.status.label(), "PROBING");
    assert_eq!(native(c.state_dl.next_rate), 55000.0);
    assert_eq!(c.state_dl.cooldown_until, None);
}

#[test]
fn an_idle_line_without_delay_is_held() {
    let mut c = with_download(5.0, 50000.0, 3_125_000, None);
    c.calculate_rate(Direction::Down, SECOND);
    assert_eq!(native(c.state_dl.load), 0.5);
    assert_eq!(c.state_dl.status, Status::Hold);
    assert_eq!(c.state_dl.status.label(), "HOLD");
    assert_eq!(native(c.state_dl.next_rate), 50000.0);
}

#[test]
fn nothing_is_made_of_a_delay_below_the_baseline() {
    for delta in [0.0, -0.0, -3.0] {
        let mut c = with_download(delta, 50000.0, 5_000_000, None);
        c.calculate_rate(Direction::Down, SECOND);
        assert_eq!(c.state_dl.status, Status::Init);
        assert_eq!(native(c.state_dl.next_rate), 50000.0);
        assert_eq!(native(c.state_dl.utilisation), 0.0);
    }
}

#[test]
fn rates_hold_during_a_cooldown() {
    let mut c = with_download(500.0, 50000.0, 5_000_000, Some(SECOND + 1));
    c.calculate_rate(Direction::Down, SECOND);
    assert_eq!(c.state_dl.status, Status::Cooldown);
    assert_eq!(c.state_dl.status.label(), "COOLDOWN");
    assert_eq!(native(c.state_dl.next_rate), 50000.0);
    assert_eq!(c.state_dl.cooldown_until, Some(SECOND + 1));
    // Once it is over, the next cut is made.
    c.calculate_rate(Direction::Down, SECOND + 1);
    assert_eq!(c.state_dl.status, Status::Congestion);
    assert_eq!(c.state_dl.cooldown_until, Some(11 * SECOND + 1));
}

#[test]
fn rates_stay_within_the_limits() {
    let mut c = with_download(1.0, 50000.0, 5_000_000, None);
    c.config.download_max_kbits = double(52000.5);
    c.calculate_rate(Direction::Down, SECOND);
    assert_eq!(native(c.state_dl.next_rate), 52000.0);
    let mut c = with_download(99.0, 1100.0, 0, None);
    c.calculate_rate(Direction::Down, SECOND);
    assert_eq!(native(c.state_dl.next_rate), 1000.0);
    let mut c = with_download(99.0, 0.0, 0, None);
    c.config.download_min_kbits = double(900.9);
    c.calculate_rate(Direction::Down, 0);
    assert_eq!(native(c.state_dl.next_rate), 900.0);
}

#[test]
fn without_delays_only_the_limits_apply() {
    let mut c = with_download(1.0, 50000.0, 5_000_000, None);
    c.state_dl.deltas = vec![];
    c.state_dl.next_rate = double(777.7);
    c.calculate_rate(Direction::Down, SECOND);
    assert_eq!(native(c.state_dl.next_rate), 1000.0);
    assert_eq!(c.state_dl.status, Status::Init);
}

#[test]
fn the_upload_has_settings_of_its_own() {
    let mut c = controller(config());
    c.config.upload_delay_ms = double(5.0);
    c.state_ul.deltas = vec![double(6.0)];
    c.state_ul.current_rate = double(10000.0);
    c.state_ul.previous_bytes = 0;
    c.state_ul.current_bytes = 1_250_000;
    c.calculate_rate(Direction::Up, SECOND);
    assert_eq!(c.state_ul.status, Status::Congestion);
    assert_eq!(native(c.state_ul.next_rate), 8500.0);
    assert_eq!(c.state_dl.status, Status::Init);
}

#[test]
fn the_third_smallest_delay_counts() {
    let mut c = controller(config());
    c.state_dl.current_rate = double(50000.0);
    let baseline = delays(&[(10.0, 1.0), (10.0, 1.0), (10.0, 1.0), (10.0, 1.0)], 0);
    let recent = delays(&[(50.0, 5.0), (12.0, 2.0), (11.0, 9.0), (30.0, 3.0)], SECOND);
    assert!(!c.update_deltas(&hosts(4), &baseline, &recent, SECOND));
    let down: Vec<f64> = c.state_dl.deltas.iter().map(|d| native(*d)).collect();
    let up: Vec<f64> = c.state_ul.deltas.iter().map(|d| native(*d)).collect();
    assert_eq!(down, vec![1.0, 2.0, 20.0, 40.0]);
    assert_eq!(up, vec![1.0, 2.0, 4.0, 8.0]);
    c.calculate_rate(Direction::Down, SECOND);
    assert_eq!(native(c.state_dl.delta_stat), 20.0);
    c.state_dl.deltas = vec![double(3.0), double(4.0)];
    c.calculate_rate(Direction::Down, 2 * SECOND);
    assert_eq!(native(c.state_dl.delta_stat), 3.0);
}

#[test]
fn old_and_unknown_delays_do_not_count() {
    let mut c = controller(config());
    let baseline = delays(&[(10.0, 1.0), (10.0, 1.0)], 0);
    let recent = delays(&[(50.0, 5.0), (12.0, 2.0), (11.0, 9.0)], SECOND);
    // Two ticks are one second.
    assert!(c.update_deltas(&hosts(3), &baseline, &recent, 2 * SECOND - 1));
    assert_eq!(c.state_dl.deltas.len(), 2);
    assert!(c.update_deltas(&hosts(3), &baseline, &recent, 2 * SECOND));
    assert_eq!(c.state_dl.deltas.len(), 0);
    assert!(!c.update_deltas(&hosts(2), &baseline, &recent, SECOND));
    assert!(!c.update_deltas(&hosts(0), &baseline, &recent, SECOND));
}

#[test]
fn it_waits_for_the_interval() {
    let mut c = controller(config());
    c.start(0);
    assert_eq!(c.advance(Event::Woke { now: SECOND / 2 }).unwrap(), Action::Sleep);
    assert_eq!(c.advance(Event::Woke { now: SECOND / 2 + 1 }).unwrap(), Action::ReadStats);
}

#[test]
fn unreadable_counters_are_skipped() {
    let mut c = controller(config());
    c.start(0);
    let stats = |down, up| Event::Stats { down, up };
    assert_eq!(c.advance(stats(Ok((5, -1)), Ok((5, 5)))).unwrap(), Action::Sleep);
    assert_eq!(c.advance(stats(Ok((5, 5)), Ok((5, -1)))).unwrap(), Action::Sleep);
    assert_eq!(c.advance(stats(Ok((-1, 5)), Ok((-1, 6)))).unwrap(), Action::CollectDelays);
    assert_eq!((c.state_dl.current_bytes, c.state_ul.current_bytes), (5, 6));
    assert!(c.advance(stats(Err(error("gone")), Ok((1, 1)))).is_err());
    assert_eq!((c.state_dl.current_bytes, c.state_ul.current_bytes), (5, 6));
}

#[test]
fn without_any_delay_the_rates_drop_to_the_smallest() {
    let mut c = controller(config());
    c.start(0);
    c.advance(Event::Woke { now: SECOND }).unwrap();
    let none = AddrMap::new();
    let action = c
        .advance(Event::Delays {
            reflectors: &hosts(4),
            baseline: &none,
            recent: &none,
            now: SECOND,
        })
        .unwrap();
    assert_eq!(action, Action::Drop { download: 1000, upload: 1000, reselect: true });
    assert_eq!(native(c.state_dl.current_rate), 1000.0);
    assert_eq!(native(c.state_ul.current_rate), 1000.0);
    // The rates count as unchanged since the start, so that the next try comes soon.
    assert_eq!(c.lastchg_t, 0);
}

#[test]
fn a_round_sets_the_rates_that_change() {
    let mut c = controller(config());
    c.start(0);
    let now = SECOND;
    assert_eq!(c.advance(Event::Woke { now }).unwrap(), Action::ReadStats);
    // The download is busy, the upload is idle.
    let stats = Event::Stats { down: Ok((0, 1000 + 5_000_000)), up: Ok((0, 2000 + 100)) };
    assert_eq!(c.advance(stats).unwrap(), Action::CollectDelays);
    let baseline = delays(&[(10.0, 10.0), (10.0, 10.0), (10.0, 10.0)], 0);
    let recent = delays(&[(11.0, 11.0), (12.0, 12.0), (13.0, 13.0)], now);
    let reflectors = hosts(3);
    let action = c
        .advance(Event::Delays { reflectors: &reflectors, baseline: &baseline, recent: &recent, now })
        .unwrap();
    assert_eq!(action, Action::ReadClock { reselect: false });
    let action = c.advance(Event::Timed { down: now, up: now }).unwrap();
    assert_eq!(action, Action::Apply { download: Some(52500), upload: Some(9509) });
    assert_eq!(c.state_dl.status, Status::Probing);
    assert_eq!(c.state_ul.status, Status::Hold);
    assert_eq!(native(c.state_dl.current_rate), 52500.0);
    assert_eq!(native(c.state_ul.current_rate), 9509.0);
    assert_eq!(c.lastchg_t, now);
    // Both lines are idle now: nothing changes, and nothing is set.
    let later = 2 * SECOND;
    c.advance(Event::Woke { now: later }).unwrap();
    let stats = Event::Stats { down: Ok((0, 5_001_000)), up: Ok((0, 2100)) };
    c.advance(stats).unwrap();
    let recent = delays(&[(11.0, 11.0), (12.0, 12.0), (13.0, 13.0)], later);
    c.advance(Event::Delays {
        reflectors: &reflectors,
        baseline: &baseline,
        recent: &recent,
        now: later,
    })
    .unwrap();
    let action = c.advance(Event::Timed { down: later, up: later }).unwrap();
    assert_eq!(action, Action::Apply { download: None, upload: None });
    assert_eq!(c.lastchg_t, later);
}

#[test]
fn a_cut_needs_a_cooldown() {
    let mut c = with_download(25.0, 50000.0, 5_000_000, None);
    assert!(c.can_calculate_rates(SECOND, SECOND));
    assert!(!c.can_calculate_rates(u128::MAX, SECOND));
    for secs in [-1.0, f64::NAN, 1e300] {
        c.config.cooldown_secs = double(secs);
        assert!(!c.can_calculate_rates(SECOND, SECOND));
    }
    // Where no cut is due, the cooldown does not matter.
    c.state_dl.cooldown_until = Some(2 * SECOND);
    assert!(c.can_calculate_rates(SECOND, SECOND));
    c.state_dl.cooldown_until = None;
    for delta in [20.0, -1.0] {
        c.state_dl.deltas = vec![double(delta)];
        assert!(c.can_calculate_rates(SECOND, SECOND));
    }
    c.state_dl.deltas = vec![];
    assert!(c.can_calculate_rates(SECOND, SECOND));
}
