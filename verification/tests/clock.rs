use sqm_autorate::address::{contains, AddrMap, IpAddr};
use sqm_autorate::clock::{nanos_between, seconds_between, Clock, ClockId, Time};

#[test]
fn clocks_go_forward() {
    let clock = Clock::start();
    let a = clock.now();
    let mut b = clock.now();
    while b == a {
        b = clock.now();
    }
    assert!(a < b);
    assert!(b < 60_000_000_000);
}

#[test]
fn spans_are_never_negative() {
    assert_eq!(nanos_between(5, 3), 2);
    assert_eq!(nanos_between(3, 5), 0);
    assert_eq!(seconds_between(2_999_999_999, 1_000_000_000), 1);
    assert_eq!(seconds_between(3_000_000_000, 1_000_000_000), 2);
    assert_eq!(seconds_between(1, 2_000_000_000), 0);
}

#[test]
fn the_system_clocks_are_read() {
    let today = Time::new(ClockId::Realtime);
    assert!(today.secs() > 1_500_000_000);
    assert!((0..1_000_000_000).contains(&today.nsecs()));
    assert!((0..86_400_000).contains(&today.get_time_since_midnight()));
    let a = Time::new(ClockId::Monotonic).to_milliseconds();
    let b = Time::new(ClockId::Monotonic).to_milliseconds();
    assert!(a <= b);
}

#[test]
fn readings_are_counted_in_milliseconds() {
    let t = Time::from_parts(86_400 * 3 + 61, 5_999_999);
    assert_eq!(t.to_milliseconds(), (86_400 * 3 + 61) * 1000 + 5);
    assert_eq!(t.get_time_since_midnight(), 61_005);
    assert_eq!(Time::from_parts(-1, 0).get_time_since_midnight(), 86_399_000);
    assert_eq!(Time::from_parts(-1, 0).to_milliseconds(), 0);
    assert_eq!(Time::from_parts(i64::MAX, 0).to_milliseconds(), i64::MAX as u64);
}

#[test]
fn maps_tell_addresses_apart() {
    let mut map: AddrMap<u8> = AddrMap::new();
    map.insert(IpAddr::V4(1), 4);
    map.insert(IpAddr::V6(1), 6);
    assert_eq!(map.get(IpAddr::V4(1)), Some(&4));
    assert_eq!(map.get(IpAddr::V6(1)), Some(&6));
    map.insert(IpAddr::V4(1), 5);
    assert_eq!(map.get(IpAddr::V4(1)), Some(&5));
    map.remove(IpAddr::V6(1));
    assert!(!map.contains_key(IpAddr::V6(1)));
    assert!(map.contains_key(IpAddr::V4(1)));
    assert!(contains(&vec![IpAddr::V4(1)], IpAddr::V4(1)));
    assert!(!contains(&vec![IpAddr::V4(1)], IpAddr::V6(1)));
}
