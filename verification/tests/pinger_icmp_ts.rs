use sqm_autorate::address::{ipv4, IpAddr};
use sqm_autorate::clock::Clock;
use sqm_autorate::float64::Float64;
use sqm_autorate::packet::{
    from_be_bytes, times_payload, to_be_bytes, to_signed, with_timestamp_request, wrapping_difference, Message, Packet,
};
use sqm_autorate::pinger::{PingError, PingMode, ReflectorState, ReflectorStates};
use sqm_autorate::pinger_icmp_ts::{PingerICMPTimestampListener, PingerICMPTimestampSender};

const HOUR: u128 = 3_600_000_000_000;

fn double(x: f64) -> Float64 {
    Float64 { bits: x.to_bits() }
}

fn nines() -> IpAddr {
    ipv4(9, 9, 9, 9)
}

fn echo_reply(identifier: u16, sequence: u16, payload: Vec<u8>) -> Packet {
    Packet {
        typ: 0,
        code: 0,
        checksum: 0,
        message: Message::EchoReply { identifier, sequence, payload },
    }
}

fn timestamp_reply(identifier: u16, originate: u32, receive: u32, transmit: u32) -> Packet {
    Packet {
        typ: 14,
        code: 0,
        checksum: 0,
        message: Message::TimestampReply { identifier, sequence: 3, originate, receive, transmit },
    }
}

fn state_of(known: &ReflectorStates) -> ReflectorState {
    *known.states.get(nines()).unwrap()
}

#[test]
fn bytes_stand_for_numbers() {
    for n in [0u64, 1, 255, 256, 0x0102_0304_0506_0708, u64::MAX] {
        assert_eq!(to_be_bytes(n), n.to_be_bytes());
        assert_eq!(from_be_bytes(&n.to_be_bytes().to_vec()), n);
        assert_eq!(to_signed(n), n as i64);
    }
    assert_eq!(wrapping_difference(5, 7), -2);
    assert_eq!(wrapping_difference(0, i64::MIN), i64::MIN);
    assert_eq!(wrapping_difference(i64::MAX, -1), i64::MIN);
}

#[test]
fn an_echo_request_carries_the_time() {
    let packet = PingerICMPTimestampSender::request(PingMode::Echo, 7, 9, 0x0102_0304, 0);
    assert_eq!((packet.typ, packet.code, packet.checksum), (8, 0, 0));
    match packet.message {
        Message::Echo { identifier, sequence, payload } => {
            assert_eq!((identifier, sequence), (7, 9));
            assert_eq!(payload, vec![0, 0, 0, 0, 1, 2, 3, 4]);
        }
        other => panic!("{other:?}"),
    }
}

#[test]
fn a_timestamp_request_carries_the_time() {
    let packet = PingerICMPTimestampSender::request(PingMode::Timestamp, 7, 9, 0, 61_005);
    assert_eq!((packet.typ, packet.code, packet.checksum), (13, 0, 0));
    assert!(matches!(
        packet.message,
        Message::Timestamp { identifier: 7, sequence: 9, originate: 61_005, receive: 0, transmit: 0 }
    ));
    assert_eq!(with_timestamp_request(1, 2, 3).typ, 13);
}

#[test]
fn an_echo_reply_tells_half_the_round_trip_each_way() {
    let payload = 1000u64.to_be_bytes().to_vec();
    let reply =
        PingerICMPTimestampListener::echo_reply(7, nines(), 7, 9, &payload, 1033, 55).unwrap();
    assert_eq!(reply.reflector, nines());
    assert_eq!(reply.seq, 9);
    assert_eq!(reply.rtt, 33);
    assert_eq!(reply.current_time, 1033);
    assert_eq!(reply.down_time, double(16.5));
    assert_eq!(reply.up_time, double(16.5));
    assert_eq!(reply.originate_timestamp, 1000);
    assert_eq!(reply.receive_timestamp, 0);
    assert_eq!(reply.transmit_timestamp, 0);
    assert_eq!(reply.last_receive_time_s, 55);
}

#[test]
fn a_timestamp_reply_tells_both_ways() {
    let reply = PingerICMPTimestampListener::timestamp_reply(nines(), 3, 1000, 1010, 1011, 1040, 55);
    assert_eq!(reply.rtt, 40);
    assert_eq!(reply.current_time, 1040);
    assert_eq!(reply.down_time, double(29.0));
    assert_eq!(reply.up_time, double(10.0));
    assert_eq!(reply.originate_timestamp, 1000);
    assert_eq!(reply.receive_timestamp, 1010);
    assert_eq!(reply.transmit_timestamp, 1011);
    // A clock at the reflector that is slow makes a delay negative.
    let reply = PingerICMPTimestampListener::timestamp_reply(nines(), 3, 1000, 990, 991, 1040, 55);
    assert_eq!(reply.up_time, double(-10.0));
    assert_eq!(reply.down_time, double(49.0));
}

#[test]
fn replies_to_others_are_refused() {
    let clock = Clock::start();
    let mut known = ReflectorStates::new();
    let listener = PingerICMPTimestampListener;
    for packet in [echo_reply(8, 1, vec![0; 8]), timestamp_reply(8, 0, 0, 0)] {
        match listener.parse_packet(&mut known, &clock, 7, nines(), &packet) {
            Err(PingError::WrongID { expected, found }) => assert_eq!((expected, found), (7, 8)),
            other => panic!("{other:?}"),
        }
    }
    assert!(!known.states.contains_key(nines()));
}

#[test]
fn malformed_packets_are_refused() {
    let clock = Clock::start();
    let mut known = ReflectorStates::new();
    let listener = PingerICMPTimestampListener;
    let mut refuse = |packet: Packet| {
        listener.parse_packet(&mut known, &clock, 7, nines(), &packet).unwrap_err()
    };
    match refuse(echo_reply(7, 1, vec![1, 2, 3])) {
        PingError::InvalidPacket(text) => {
            assert_eq!(text, "Expected 8 bytes payload, but found 3");
        }
        other => panic!("{other:?}"),
    }
    for typ in [0, 14] {
        match refuse(Packet { typ, code: 0, checksum: 0, message: Message::Other }) {
            PingError::InvalidPacket(text) => {
                assert_eq!(text, format!("Packet had type {typ}, but did not match the structure"));
            }
            other => panic!("{other:?}"),
        }
    }
    match refuse(Packet { typ: 3, code: 0, checksum: 0, message: Message::Other }) {
        PingError::InvalidType(text) => assert_eq!(text, "3"),
        other => panic!("{other:?}"),
    }
}

#[test]
fn a_short_payload_still_counts_as_an_answer() {
    let clock = Clock::start();
    let mut known = ReflectorStates::new();
    known.states.insert(
        nines(),
        ReflectorState { current_mode: PingMode::Echo, consecutive_fails: 4, last_timestamp_attempt: 1 },
    );
    let listener = PingerICMPTimestampListener;
    assert!(listener
        .parse_packet(&mut known, &clock, 7, nines(), &echo_reply(7, 1, vec![]))
        .is_err());
    assert_eq!(state_of(&known).consecutive_fails, 0);
    assert_eq!(state_of(&known).current_mode, PingMode::Echo);
}

#[test]
fn a_timestamp_reply_brings_timestamps_back() {
    let mut known = ReflectorStates::new();
    known.states.insert(
        nines(),
        ReflectorState { current_mode: PingMode::Echo, consecutive_fails: 4, last_timestamp_attempt: 1 },
    );
    let listener = PingerICMPTimestampListener;
    listener.note_packet(&mut known, 7, nines(), &timestamp_reply(7, 0, 0, 0), 99);
    assert_eq!(
        state_of(&known),
        ReflectorState {
            current_mode: PingMode::Timestamp,
            consecutive_fails: 0,
            last_timestamp_attempt: 1
        }
    );
}

#[test]
fn an_echo_request_comes_back() {
    let clock = Clock::start();
    let mut known = ReflectorStates::new();
    known.states.insert(
        nines(),
        ReflectorState {
            current_mode: PingMode::Echo,
            consecutive_fails: 3,
            last_timestamp_attempt: clock.now(),
        },
    );
    let sender = PingerICMPTimestampSender;
    let request = sender.craft_packet(&mut known, &clock, 7, 21, nines());
    assert_eq!(state_of(&known).consecutive_fails, 4);
    let reply = match request.message {
        Message::Echo { identifier, sequence, payload } => echo_reply(identifier, sequence, payload),
        other => panic!("{other:?}"),
    };
    let listener = PingerICMPTimestampListener;
    let told = listener.parse_packet(&mut known, &clock, 7, nines(), &reply).unwrap();
    assert_eq!(told.seq, 21);
    assert!((0..10_000).contains(&told.rtt));
    assert_eq!(told.current_time, told.originate_timestamp + told.rtt);
    assert_eq!(state_of(&known).consecutive_fails, 0);
}

#[test]
fn a_timestamp_request_comes_back() {
    let clock = Clock::start();
    let mut known = ReflectorStates::new();
    let sender = PingerICMPTimestampSender;
    let request = sender.craft_packet(&mut known, &clock, 7, 3, nines());
    let sent = match request.message {
        Message::Timestamp { originate, .. } => originate,
        other => panic!("{other:?}"),
    };
    let listener = PingerICMPTimestampListener;
    let reply = timestamp_reply(7, sent, sent, sent);
    let told = listener.parse_packet(&mut known, &clock, 7, nines(), &reply).unwrap();
    assert_eq!(told.originate_timestamp, sent as i64);
    assert_eq!(told.up_time, double(0.0));
    assert_eq!(told.down_time, double(told.rtt as f64));
}

#[test]
fn ten_unanswered_requests_end_in_echo() {
    let clock = Clock::start();
    let mut known = ReflectorStates::new();
    let sender = PingerICMPTimestampSender;
    for i in 1..=12u32 {
        let packet = sender.craft_packet(&mut known, &clock, 7, i as u16, nines());
        assert_eq!(packet.typ, if i < 10 { 13 } else { 8 });
        assert_eq!(state_of(&known).consecutive_fails, i);
    }
    assert_eq!(state_of(&known).current_mode, PingMode::Echo);
}

#[test]
fn timestamps_are_tried_again_after_an_hour() {
    let given_up = ReflectorState {
        current_mode: PingMode::Echo,
        consecutive_fails: 10,
        last_timestamp_attempt: 5,
    };
    let next = |s: ReflectorState, t: u128| PingerICMPTimestampSender::next_request(s, t, t, t);
    let (s, mode) = next(given_up, HOUR + 4);
    assert_eq!(mode, PingMode::Echo);
    assert_eq!(s.last_timestamp_attempt, 5);
    let (s, mode) = next(given_up, HOUR + 5);
    assert_eq!(mode, PingMode::Timestamp);
    assert_eq!(s.current_mode, PingMode::Echo);
    assert_eq!(s.last_timestamp_attempt, HOUR + 5);
    let (_, mode) = next(s, HOUR + 6);
    assert_eq!(mode, PingMode::Echo);
}

#[test]
fn a_poisoned_lock_leaves_everything_as_it_is() {
    let clock = Clock::start();
    let mut known = ReflectorStates::new();
    known.poisoned = true;
    let packet = PingerICMPTimestampSender.craft_packet(&mut known, &clock, 7, 1, nines());
    assert_eq!(packet.typ, 13);
    assert!(!known.states.contains_key(nines()));
    PingerICMPTimestampListener.note_packet(&mut known, 7, nines(), &timestamp_reply(7, 0, 0, 0), 9);
    assert!(!known.states.contains_key(nines()));
}

#[test]
fn counting_requests_wraps_around() {
    let s = ReflectorState {
        current_mode: PingMode::Timestamp,
        consecutive_fails: u32::MAX,
        last_timestamp_attempt: 0,
    };
    let (s, mode) = PingerICMPTimestampSender::next_request(s, 1, 1, 1);
    assert_eq!(s.consecutive_fails, 0);
    assert_eq!(mode, PingMode::Timestamp);
}

#[test]
fn times_are_laid_out_one_behind_the_other() {
    let payload = times_payload(0x0102_0304, 0, u32::MAX);
    assert_eq!(payload, vec![1, 2, 3, 4, 0, 0, 0, 0, 255, 255, 255, 255]);
}
