use sqm_autorate::address::{ipv4, IpAddr};
use sqm_autorate::config::{
    parse_switch, Config, ConfigError, Key, MeasurementType, Setting, Settings, KEYS,
};
use sqm_autorate::float64::Float64;

fn double(x: f64) -> Float64 {
    Float64 { bits: x.to_bits() }
}

fn setting(text: Option<&str>) -> Setting {
    Setting {
        text: text.map(|t| t.to_string()),
        number: text.and_then(|t| t.parse::<f64>().ok()).map(double),
    }
}

/// The settings that must be given, and those in `more`.
fn settings(more: &[(Key, &str)]) -> Settings {
    let mut given = Vec::new();
    for i in 0..KEYS {
        let key = Key::at(i);
        let text = match more.iter().find(|(k, _)| *k == key) {
            Some((_, text)) => Some(*text),
            None => match key {
                Key::DownloadBaseKbits => Some("50000"),
                Key::DownloadInterface => Some("ifb4eth0"),
                Key::UploadBaseKbits => Some("10000.5"),
                Key::UploadInterface => Some("eth0"),
                _ => None,
            },
        };
        given.push(setting(text));
    }
    Settings { given }
}

#[test]
fn from_str_knows_four_ways_to_measure() {
    assert!(matches!(MeasurementType::from_str("icmp"), Ok(MeasurementType::Icmp)));
    assert!(matches!(
        MeasurementType::from_str("Icmp-Timestamps"),
        Ok(MeasurementType::IcmpTimestamps)
    ));
    assert!(matches!(MeasurementType::from_str("NTP"), Ok(MeasurementType::Ntp)));
    assert!(matches!(
        MeasurementType::from_str("tcp-timestamps"),
        Ok(MeasurementType::TcpTimestamps)
    ));
    match MeasurementType::from_str("Ping") {
        Err(ConfigError::InvalidMeasurementType(text)) => assert_eq!(text, "Ping"),
        other => panic!("{other:?}"),
    }
    assert!(MeasurementType::from_str(" icmp").is_err());
    assert_eq!(MeasurementType::from_lowercase("ICMP"), None);
}

#[test]
fn switches_are_set_by_many_words() {
    for text in ["1", "true", "on", "yes", " TRUE ", "Yes"] {
        assert_eq!(parse_switch(text), Some(true), "{text:?}");
    }
    for text in ["0", "false", "off", "no", "\tOFF"] {
        assert_eq!(parse_switch(text), Some(false), "{text:?}");
    }
    for text in ["", "2", "y", "enabled"] {
        assert_eq!(parse_switch(text), None, "{text:?}");
    }
}

#[test]
fn defaults_stand_in_for_what_is_not_given() {
    let c = Config::new(&settings(&[])).unwrap();
    assert_eq!(c.download_base_kbits, double(50000.0));
    assert_eq!(c.upload_base_kbits, double(10000.5));
    assert_eq!(c.download_interface, "ifb4eth0");
    assert_eq!(c.upload_interface, "eth0");
    assert_eq!(c.download_max_kbits, double(0.0));
    assert_eq!(c.upload_max_kbits, double(0.0));
    assert_eq!(c.download_min_kbits, double(1000.0));
    assert_eq!(c.upload_min_kbits, double(1000.0));
    assert_eq!(c.stats_file, "/tmp/sqm-autorate.csv");
    assert!(!c.suppress_statistics);
    assert_eq!(c.download_delay_ms, double(20.0));
    assert_eq!(c.upload_delay_ms, double(20.0));
    assert_eq!(c.high_load_level, double(0.5));
    assert_eq!(c.min_change_interval, double(0.5));
    assert_eq!(c.measurement_type, MeasurementType::IcmpTimestamps);
    assert_eq!(c.num_reflectors, 5);
    assert_eq!(c.peer_reselection_time, 15);
    assert_eq!(c.reflectors, "");
    assert_eq!(c.tick_interval, double(0.5));
    assert_eq!(c.increase_step_kbits, double(5000.0));
    assert_eq!(c.decrease_multiplier, double(0.85));
    assert_eq!(c.cooldown_secs, double(10.0));
}

#[test]
fn what_is_given_is_used() {
    let c = Config::new(&settings(&[
        (Key::DownloadMaxKbits, "90000"),
        (Key::SuppressStatistics, "yes"),
        (Key::MeasurementType, "ICMP"),
        (Key::NumReflectors, "255"),
        (Key::PeerReselectionTime, "18446744073709551615"),
        (Key::Reflectors, "9.9.9.9"),
        (Key::StatsFile, "/dev/null"),
        (Key::CooldownSecs, "2.5"),
        (Key::TickInterval, "inf"),
    ]))
    .unwrap();
    assert_eq!(c.download_max_kbits, double(90000.0));
    assert!(c.suppress_statistics);
    assert_eq!(c.measurement_type, MeasurementType::Icmp);
    assert_eq!(c.num_reflectors, 255);
    assert_eq!(c.peer_reselection_time, u64::MAX);
    assert_eq!(c.reflectors, "9.9.9.9");
    assert_eq!(c.stats_file, "/dev/null");
    assert_eq!(c.cooldown_secs, double(2.5));
    assert_eq!(c.tick_interval, double(f64::INFINITY));
}

#[test]
fn a_base_rate_of_zero_means_no_limit() {
    let c = Config::new(&settings(&[
        (Key::DownloadBaseKbits, "0"),
        (Key::UploadBaseKbits, "-0.0"),
    ]))
    .unwrap();
    assert_eq!(c.download_base_kbits, double(10_000_000.0));
    assert_eq!(c.upload_base_kbits, double(10_000_000.0));
}

#[test]
fn a_missing_setting_is_named() {
    let mut s = settings(&[]);
    s.given[Key::UploadInterface.index()] = setting(None);
    let e = Config::new(&s).unwrap_err();
    assert_eq!(e.message(), "No config value found for key: `SQMA_UPLOAD_INTERFACE`");
    assert!(matches!(e, ConfigError::MissingValue(key) if key == "SQMA_UPLOAD_INTERFACE"));
}

#[test]
fn a_bad_setting_is_named() {
    for (key, text, name) in [
        (Key::DownloadMinKbits, "fast", "SQMA_DOWNLOAD_MIN_KBITS"),
        (Key::NumReflectors, "256", "SQMA_NUM_REFLECTORS"),
        (Key::NumReflectors, "-1", "SQMA_NUM_REFLECTORS"),
        (Key::SuppressStatistics, "maybe", "SQMA_SUPPRESS_STATISTICS"),
        (Key::MeasurementType, "ping", "SQMA_MEASUREMENT_TYPE"),
        (Key::PeerReselectionTime, "", "SQMA_PEER_RESELECTION_TIME"),
    ] {
        let e = Config::new(&settings(&[(key, text)])).unwrap_err();
        assert_eq!(e.message(), format!("Couldn't parse value for key: `{name}`: invalid value"));
    }
    let e = ConfigError::InvalidMeasurementType("x".to_string());
    assert_eq!(e.message(), "Invalid measurement type");
}

#[test]
fn the_first_problem_is_reported() {
    let e = Config::new(&settings(&[
        (Key::CooldownSecs, "x"),
        (Key::DownloadInterface, "eth1"),
        (Key::HighLoadLevel, "y"),
    ]))
    .unwrap_err();
    assert!(matches!(e, ConfigError::ParseError(key) if key == "SQMA_HIGH_LOAD_LEVEL"));
}

#[test]
fn the_environment_comes_before_the_system_configuration() {
    let env = Some("a".to_string());
    let uci = Some("b".to_string());
    assert_eq!(Config::get_value(env.clone(), uci.clone()), env);
    assert_eq!(Config::get_value(None, uci.clone()), uci);
    assert_eq!(Config::get_value(env.clone(), None), env);
    assert_eq!(Config::get_value(None, None), None);
}

#[test]
fn a_setting_is_what_was_read_or_its_default() {
    assert_eq!(Config::get("K", true, Some(3), Some(4)).unwrap(), 3);
    assert_eq!(Config::get("K", false, None, Some(4)).unwrap(), 4);
    assert!(matches!(Config::get::<u8>("K", true, None, Some(4)), Err(ConfigError::ParseError(k)) if k == "K"));
    assert!(matches!(Config::get::<u8>("K", false, None, None), Err(ConfigError::MissingValue(k)) if k == "K"));
}

#[test]
fn keys_have_two_names_each() {
    for i in 0..KEYS {
        let key = Key::at(i);
        assert_eq!(key.index(), i);
        let name = key.env_key().strip_prefix("SQMA_").unwrap().to_lowercase();
        assert_eq!(key.uci_key(), format!("sqm-autorate.main.{name}"));
    }
    assert_eq!(Key::TickInterval.env_key(), "SQMA_TICK_INTERVAL");
}

#[test]
fn reflectors_are_loaded_or_the_bad_one_is_named() {
    let c = Config::new(&settings(&[(Key::Reflectors, "9.9.9.9, nine 8.8.8.8")])).unwrap();
    assert_eq!(c.reflector_tokens(), vec!["9.9.9.9", "nine", "8.8.8.8"]);
    let nines = ipv4(9, 9, 9, 9);
    let eights = ipv4(8, 8, 8, 8);
    assert_eq!(c.load_reflectors(), Err("nine".to_string()));
    assert_eq!(c.collect_reflectors(&vec![Some(nines), None, Some(eights)]), Err("nine".to_string()));
    let c = Config::new(&settings(&[(Key::Reflectors, "9.9.9.9,8.8.8.8")])).unwrap();
    assert_eq!(c.load_reflectors(), Ok(vec![nines, eights]));
    assert_eq!(c.collect_reflectors(&vec![Some(nines), Some(eights)]), Ok(vec![nines, eights]));
    assert_eq!(nines, IpAddr::V4(0x0909_0909));
}

#[test]
fn reflectors_have_addresses_of_both_versions() {
    for (text, address) in [
        ("9.9.9.9", IpAddr::V4(0x0909_0909)),
        ("255.255.255.254", IpAddr::V4(0xFFFF_FFFE)),
        ("::1", IpAddr::V6(1)),
        ("2620:FE::fe", IpAddr::V6(0x2620_00FE_0000_0000_0000_0000_0000_00FE)),
        ("::ffff:9.9.9.9", IpAddr::V6(0xFFFF_0909_0909)),
    ] {
        let c = Config::new(&settings(&[(Key::Reflectors, text)])).unwrap();
        assert_eq!(c.load_reflectors(), Ok(vec![address]));
    }
    for text in ["256.1.1.1", "1.2.3", "01.2.3.4", ":::", "[::1]", "9.9.9.9:53", "dns.quad9.net"] {
        let c = Config::new(&settings(&[(Key::Reflectors, text)])).unwrap();
        assert_eq!(c.load_reflectors(), Err(text.to_string()));
    }
    let c = Config::new(&settings(&[(Key::Reflectors, " , ")])).unwrap();
    assert_eq!(c.load_reflectors(), Ok(vec![]));
}
