use sqm_autorate::config::{parse_switch, MeasurementType};
use sqm_autorate::text::{
    characters, concatenated, decimal_text, is_white_space, parse_unsigned, same_text, split_list,
    starts_with, trim,
};

#[test]
fn white_space_is_that_of_the_standard_library() {
    for n in 0..=0x10FFFFu32 {
        if let Some(c) = char::from_u32(n) {
            assert_eq!(is_white_space(c), c.is_whitespace(), "{n:x}");
        }
    }
}

#[test]
fn trimming_takes_white_space_from_both_ends() {
    for text in ["", " ", "a", " a b ", "\t\na\u{3000}", "\u{2003}x y\u{85}", "é ", "  "] {
        assert_eq!(trim(text), text.trim());
    }
}

#[test]
fn lists_are_split_at_blanks_and_commas() {
    let cases: [(&str, &[&str]); 7] = [
        ("", &[]),
        (" ,, ", &[]),
        ("9.9.9.9", &["9.9.9.9"]),
        ("9.9.9.9 8.8.8.8", &["9.9.9.9", "8.8.8.8"]),
        ("9.9.9.9,8.8.8.8", &["9.9.9.9", "8.8.8.8"]),
        ("9.9.9.9, 8.8.8.8,\t1.1.1.1\n", &["9.9.9.9", "8.8.8.8", "1.1.1.1"]),
        ("a\tb", &["a\tb"]),
    ];
    for (text, expected) in cases {
        let found: Vec<String> = split_list(text);
        assert_eq!(found, expected, "{text:?}");
    }
}

#[test]
fn whole_numbers_are_read_as_the_standard_library_does() {
    for text in [
        "", "+", "-", "0", "5", "+5", "-5", "-0", "007", "255", "256", "5 ", " 5", "1e3", "0x10", "٣",
        "18446744073709551615", "18446744073709551616", "99999999999999999999999",
    ] {
        assert_eq!(parse_unsigned(text, u64::MAX), text.parse::<u64>().ok(), "{text:?}");
        let byte = text.parse::<u8>().ok().map(|b| b as u64);
        assert_eq!(parse_unsigned(text, 255), byte, "{text:?}");
    }
}

#[test]
fn numbers_are_written_in_decimal() {
    for n in [0u64, 7, 10, 255, 1000, 43_200, u64::MAX] {
        assert_eq!(decimal_text(n), n.to_string());
    }
}

#[test]
fn texts_are_compared_and_joined() {
    assert!(same_text("on", "on"));
    assert!(!same_text("on", "On"));
    assert!(!same_text("on", "one"));
    assert!(starts_with("ifb4eth0", "ifb"));
    assert!(!starts_with("if", "ifb"));
    assert!(starts_with("x", ""));
    assert_eq!(concatenated("a", "", "ç"), "aç");
    assert_eq!(characters("aé"), vec!['a', 'é']);
}

#[test]
fn upper_case_is_lowered() {
    assert!(matches!(MeasurementType::from_str("ICMP"), Ok(MeasurementType::Icmp)));
    assert_eq!(parse_switch(" YES\n"), Some(true));
    assert_eq!(parse_switch("Off"), Some(false));
}
