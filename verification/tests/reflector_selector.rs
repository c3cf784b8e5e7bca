use sqm_autorate::address::{ipv4, AddrMap, IpAddr};
use sqm_autorate::clock::Clock;
use sqm_autorate::config::{Config, Key, Setting, Settings, KEYS};
use sqm_autorate::float64::Float64;
use sqm_autorate::pinger::ReflectorStats;
use sqm_autorate::reflector_selector::{
    penalty_secs, random_picks, Candidate, Draw, Failures, Reading, ReflectorSelector, DRAWS,
};

const SECOND: u128 = 1_000_000_000;

fn double(x: f64) -> Float64 {
    Float64 { bits: x.to_bits() }
}

fn config(num_reflectors: u8) -> Config {
    let mut given = Vec::new();
    for i in 0..KEYS {
        let text = match Key::at(i) {
            Key::DownloadBaseKbits | Key::UploadBaseKbits => Some("1000"),
            Key::DownloadInterface | Key::UploadInterface => Some("eth0"),
            _ => None,
        };
        given.push(Setting {
            text: text.map(|t| t.to_string()),
            number: text.and_then(|t| t.parse::<f64>().ok()).map(double),
        });
    }
    let mut config = Config::new(&Settings { given }).unwrap();
    config.num_reflectors = num_reflectors;
    config
}

fn host(n: u8) -> IpAddr {
    ipv4(10, 0, 0, n)
}

fn pool(n: u8) -> Vec<IpAddr> {
    (0..n).map(host).collect()
}

fn stats(at: u128, down: f64, up: f64) -> ReflectorStats {
    ReflectorStats { last_receive_time_s: at, down_ewma: double(down), up_ewma: double(up) }
}

fn reading(t: u128) -> Reading {
    Reading { reply: t, failure: t, noted: t }
}

#[test]
fn penalties_grow_up_to_twelve_hours() {
    let expected = [0, 300, 1800, 3600, 7200, 14400, 28800, 43200, 43200];
    for (n, secs) in expected.iter().enumerate() {
        assert_eq!(penalty_secs(n as u32), *secs);
    }
    for n in [20, 56, 66, 67, 1000, u32::MAX] {
        assert_eq!(penalty_secs(n), 43200);
    }
}

#[test]
fn the_first_forty_reselections_are_quick() {
    let mut s = ReflectorSelector::new(config(5), pool(8));
    assert_eq!(s.sleep_secs, 30);
    for i in 1..=40 {
        s.count_reselection();
        assert_eq!((s.reselection_count, s.sleep_secs), (i, 30));
    }
    s.count_reselection();
    assert_eq!((s.reselection_count, s.sleep_secs), (41, 900));
    for i in 42..=100 {
        s.count_reselection();
        assert_eq!((s.reselection_count, s.sleep_secs), (i, 900));
    }
    s.reselection_count = i32::MAX;
    s.count_reselection();
    assert_eq!((s.reselection_count, s.sleep_secs), (i32::MIN, 900));
}

#[test]
fn delays_are_measured_for_about_three_ticks() {
    let mut s = ReflectorSelector::new(config(5), pool(8));
    let expected = std::time::Duration::from_secs_f64(0.5 * std::f64::consts::PI);
    assert_eq!(s.baseline_sleep(), Some(expected.as_nanos()));
    s.config.tick_interval = double(-1.0);
    assert_eq!(s.baseline_sleep(), None);
}

#[test]
fn those_drawn_join_the_peers() {
    let mut s = ReflectorSelector::new(config(5), pool(8));
    s.penalty_box.insert(host(6), Failures { count: 1, last_check_time: 0 });
    s.penalty_box.insert(host(7), Failures { count: 0, last_check_time: 0 });
    let draw = |index: usize, now: u128| Draw { index, now };
    let peers = vec![host(0), host(1)];
    let next = s.gather(
        &peers,
        &vec![
            draw(3, 0),
            draw(1, 0),
            draw(3, 0),
            draw(6, 300 * SECOND - 1),
            draw(7, 0),
            draw(6, 300 * SECOND),
            draw(2, 0),
        ],
    );
    assert_eq!(next, vec![host(0), host(1), host(3), host(7), host(6), host(2)]);
}

#[test]
fn widening_draws_from_the_pool() {
    let mut s = ReflectorSelector::new(config(5), pool(30));
    let clock = Clock::start();
    let peers = vec![host(3), host(200)];
    let mut drawn = Vec::new();
    for i in 1..=5 {
        let next = s.widen(&peers, &clock);
        assert_eq!(s.reselection_count, i);
        assert_eq!(next[..2], peers[..]);
        assert!(next.len() <= peers.len() + DRAWS);
        assert!(next.len() > 3);
        for (i, peer) in next.iter().enumerate().skip(2) {
            assert!(s.reflector_pool.contains(peer));
            assert!(!next[..i].contains(peer));
        }
        drawn.push(next);
    }
    assert!(drawn.iter().any(|d| *d != drawn[0]));
}

#[test]
fn a_pool_of_one_is_drawn_from_once() {
    let mut s = ReflectorSelector::new(config(5), pool(1));
    assert_eq!(s.widen(&vec![], &Clock::start()), vec![host(0)]);
}

#[test]
fn an_answer_clears_the_penalty() {
    let mut s = ReflectorSelector::new(config(5), pool(8));
    s.penalty_box.insert(host(1), Failures { count: 4, last_check_time: 0 });
    let mut recent = AddrMap::new();
    recent.insert(host(1), stats(SECOND, 10.7, 20.8));
    let found = s.assess_peer(&recent, host(1), reading(31 * SECOND - 1));
    assert_eq!(found, Some(Candidate { address: host(1), rtt: 31 }));
    assert!(!s.penalty_box.contains_key(host(1)));
    // Thirty seconds are too old.
    let found = s.assess_peer(&recent, host(1), reading(31 * SECOND));
    assert_eq!(found, None);
    assert_eq!(
        s.penalty_box.get(host(1)),
        Some(&Failures { count: 1, last_check_time: 31 * SECOND })
    );
}

#[test]
fn silence_counts_except_shortly_after_the_last_time() {
    let mut s = ReflectorSelector::new(config(5), pool(8));
    let recent = AddrMap::new();
    let mut look = |t: u128| {
        assert_eq!(s.assess_peer(&recent, host(1), reading(t)), None);
        *s.penalty_box.get(host(1)).unwrap()
    };
    assert_eq!(look(5), Failures { count: 1, last_check_time: 5 });
    assert_eq!(look(5 + 10 * SECOND - 1), Failures { count: 1, last_check_time: 5 });
    let later = 5 + 10 * SECOND;
    assert_eq!(look(later), Failures { count: 2, last_check_time: later });
    s.penalty_box.insert(host(1), Failures { count: u32::MAX, last_check_time: 0 });
    s.assess_peer(&recent, host(1), reading(later));
    assert_eq!(s.penalty_box.get(host(1)).unwrap().count, 0);
}

#[test]
fn delays_that_make_no_sense_are_held_in_range() {
    let mut s = ReflectorSelector::new(config(5), pool(8));
    let mut recent = AddrMap::new();
    for (down, up, rtt) in [(-5.0, 2.0, 0), (f64::NAN, 1.0, 0), (1e300, 0.0, u64::MAX)] {
        recent.insert(host(1), stats(0, down, up));
        assert_eq!(
            s.assess_peer(&recent, host(1), reading(0)),
            Some(Candidate { address: host(1), rtt })
        );
    }
}

#[test]
fn candidates_are_those_that_answered_in_order() {
    let mut s = ReflectorSelector::new(config(5), pool(8));
    let mut recent = AddrMap::new();
    recent.insert(host(0), stats(0, 9.0, 9.0));
    recent.insert(host(2), stats(0, 1.0, 1.0));
    let peers = pool(3);
    let found = s.assess(&recent, &peers, &vec![reading(SECOND); 3]);
    assert_eq!(
        found,
        vec![Candidate { address: host(0), rtt: 18 }, Candidate { address: host(2), rtt: 2 }]
    );
    assert!(s.penalty_box.contains_key(host(1)));
    assert!(!s.penalty_box.contains_key(host(0)));
}

#[test]
fn peers_are_chosen_among_the_quickest() {
    let s = ReflectorSelector::new(config(2), pool(8));
    let candidates: Vec<Candidate> = [(0, 50), (1, 10), (2, 30), (3, 10), (4, 20), (5, 60)]
        .iter()
        .map(|(n, rtt)| Candidate { address: host(*n), rtt: *rtt })
        .collect();
    // Ranked: 1, 3, 4, 2 are the four quickest. Each pick is exchanged with the last one
    // that has not been exchanged yet.
    assert_eq!(s.choose_peers(&candidates, &vec![3, 2, 1]), vec![host(1), host(3)]);
    assert_eq!(s.choose_peers(&candidates, &vec![0, 0, 0]), vec![host(3), host(4)]);
    assert_eq!(s.choose_peers(&candidates, &vec![1, 2, 0]), vec![host(2), host(1)]);
}

#[test]
fn fewer_candidates_than_needed_are_all_chosen() {
    let s = ReflectorSelector::new(config(200), pool(8));
    let candidates: Vec<Candidate> =
        (0..3).map(|n| Candidate { address: host(n), rtt: 9 - n as u64 }).collect();
    assert_eq!(s.choose_peers(&candidates, &vec![2, 1]), vec![host(2), host(1), host(0)]);
    assert_eq!(s.choose_peers(&vec![], &vec![]), vec![]);
    let s = ReflectorSelector::new(config(0), pool(8));
    assert_eq!(s.choose_peers(&candidates, &vec![]), vec![]);
}

#[test]
fn many_reflectors_can_be_asked_for() {
    let s = ReflectorSelector::new(config(128), pool(8));
    let candidates: Vec<Candidate> =
        (0..=255u8).map(|n| Candidate { address: host(n), rtt: n as u64 }).collect();
    let picks = random_picks(256);
    assert_eq!(s.choose_peers(&candidates, &picks).len(), 128);
}

#[test]
fn picks_can_shuffle() {
    assert_eq!(random_picks(0), vec![]);
    assert_eq!(random_picks(1), vec![]);
    let picks = random_picks(50);
    assert_eq!(picks.len(), 49);
    for (k, pick) in picks.iter().enumerate() {
        assert!(*pick < 50 - k);
    }
    assert!((0..20).any(|_| random_picks(50) != picks));
}

#[test]
fn narrowing_keeps_the_quickest_that_answered() {
    let mut s = ReflectorSelector::new(config(2), pool(8));
    let clock = Clock::start();
    let mut recent = AddrMap::new();
    for n in 0..6 {
        recent.insert(host(n), stats(clock.now(), 5.0 * n as f64, 0.0));
    }
    let peers = pool(8);
    for _ in 0..20 {
        let chosen = s.narrow(&recent, &peers, &clock);
        assert_eq!(chosen.len(), 2);
        assert_ne!(chosen[0], chosen[1]);
        for peer in &chosen {
            assert!(pool(4).contains(peer));
        }
    }
    assert_eq!(s.penalty_box.get(host(6)).unwrap().count, 1);
    assert!(s.penalty_box.contains_key(host(7)));
    assert!(!s.penalty_box.contains_key(host(0)));
}
