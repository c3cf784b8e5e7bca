use sqm_autorate::address::{ipv4, IpAddr};
use sqm_autorate::float64::Float64;
use sqm_autorate::ratecontroller::StatsDirection;
use sqm_autorate::startup::{
    download_direction, first_peers, is_unlimited, needs_selector, reflectors_or_defaults, request_id,
    upload_direction,
};

#[test]
fn the_identifier_is_the_end_of_the_process_number() {
    assert_eq!(request_id(0), 0);
    assert_eq!(request_id(0xFFFF), 0xFFFF);
    assert_eq!(request_id(0x1_2345), 0x2345);
    assert_eq!(request_id(u32::MAX), 0xFFFF);
}

#[test]
fn there_are_default_reflectors() {
    let all = reflectors_or_defaults(vec![]);
    assert_eq!(
        all,
        vec![
            ipv4(9, 9, 9, 9),
            ipv4(8, 238, 120, 14),
            ipv4(74, 82, 42, 42),
            ipv4(194, 242, 2, 2),
            ipv4(208, 67, 222, 222),
            ipv4(94, 140, 14, 14),
        ]
    );
    assert_eq!(all[1], IpAddr::V4(u32::from_be_bytes([8, 238, 120, 14])));
    assert_eq!(reflectors_or_defaults(vec![IpAddr::V6(1)]), vec![IpAddr::V6(1)]);
}

#[test]
fn the_first_peers_are_from_the_front() {
    let all = reflectors_or_defaults(vec![]);
    assert_eq!(first_peers(&all, 5), all[..5].to_vec());
    assert_eq!(first_peers(&all, 6), all);
    assert_eq!(first_peers(&all, 200), all);
    assert_eq!(first_peers(&all, 0), vec![]);
    assert!(needs_selector(&all, 5));
    assert!(!needs_selector(&all, 6));
    assert!(!needs_selector(&all, 7));
}

#[test]
fn mirrored_interfaces_count_the_other_way() {
    for interface in ["ifb4eth0", "veth-lan", "ifb", "veth"] {
        assert_eq!(download_direction(interface), StatsDirection::TX);
        assert_eq!(upload_direction(interface), StatsDirection::RX);
    }
    for interface in ["eth0", "", "if", "IFB0", "wan-ifb"] {
        assert_eq!(download_direction(interface), StatsDirection::RX);
        assert_eq!(upload_direction(interface), StatsDirection::TX);
    }
}

#[test]
fn ten_gigabits_mean_no_limit() {
    assert!(is_unlimited(Float64 { bits: 10_000_000.0f64.to_bits() }));
    assert!(!is_unlimited(Float64 { bits: 9_999_999.0f64.to_bits() }));
    assert!(!is_unlimited(Float64 { bits: f64::NAN.to_bits() }));
}
