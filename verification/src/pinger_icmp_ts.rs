//! Pinging by timestamps, with echo requests for reflectors that do not answer those.
use crate::address::IpAddr;
use crate::arithmetic::{law_halves_add_up, law_whole_numbers_are_exact};
use crate::clock::{seconds, seconds_between, Clock, ClockId, Time, DAY_MS};
use crate::float64::{unit, Float64};
use crate::packet::{
    be_value, echo_request, from_be_bytes, signed, timestamp_request, to_be_bytes, to_signed,
    with_echo_request, with_timestamp_request, wrapped, wrapping_difference, Message, MessageView,
    Packet, PacketView, ECHO_REPLY, TIMESTAMP_REPLY,
};
use crate::pinger::{
    bad_payload, bad_structure, bad_type, state_of, PingError, PingErrorView, PingMode, PingReply,
    ReflectorState, ReflectorStates,
};
use vstd::prelude::*;

verus! {

/// So many unanswered requests make a reflector one that does not know timestamps.
pub const FAILS_BEFORE_ECHO: u32 = 10;

/// After so many seconds such a reflector is asked for timestamps again.
pub const RETRY_SECONDS: u128 = 3600;

/// Takes the replies in.
pub struct PingerICMPTimestampListener;

/// Makes the requests.
pub struct PingerICMPTimestampSender;

/// Whether `packet` answers a request with the identifier `id`.
pub open spec fn answers(packet: PacketView, id: u16) -> bool {
    match packet.message {
        MessageView::EchoReply { identifier, .. } => packet.typ == ECHO_REPLY && identifier == id,
        MessageView::TimestampReply { identifier, .. } => {
            packet.typ == TIMESTAMP_REPLY && identifier == id
        },
        _ => false,
    }
}

/// What is known of a reflector after a reply from it. A timestamp reply shows that it
/// knows timestamps.
pub open spec fn answered(state: ReflectorState, packet: PacketView) -> ReflectorState {
    ReflectorState {
        current_mode: if packet.typ == TIMESTAMP_REPLY {
            PingMode::Timestamp
        } else {
            state.current_mode
        },
        consecutive_fails: 0,
        last_timestamp_attempt: state.last_timestamp_attempt,
    }
}

/// What is known of the reflectors after `packet` came from `reflector`.
pub open spec fn noted(
    states: Map<IpAddr, ReflectorState>,
    poisoned: bool,
    id: u16,
    reflector: IpAddr,
    packet: PacketView,
    now: u128,
) -> Map<IpAddr, ReflectorState> {
    if answers(packet, id) && !poisoned {
        states.insert(reflector, answered(state_of(states, reflector, now), packet))
    } else {
        states
    }
}

/// Half of `n`.
pub open spec fn half_of(n: int) -> Float64 {
    Float64::of_integer(n).divided_by(Float64::of_integer(2))
}

/// What an echo reply tells at `time_ms`, when the request was sent at `time_sent`.
pub open spec fn echo_reply_tells(
    reply: PingReply,
    reflector: IpAddr,
    sequence: u16,
    time_sent: int,
    time_ms: i64,
    received: u128,
) -> bool {
    &&& reply.reflector == reflector
    &&& reply.seq == sequence
    &&& reply.rtt == wrapped(time_ms - time_sent)
    &&& reply.current_time == time_ms
    &&& reply.down_time == half_of(reply.rtt as int)
    &&& reply.up_time == half_of(reply.rtt as int)
    &&& reply.originate_timestamp == time_sent
    &&& reply.receive_timestamp == 0
    &&& reply.transmit_timestamp == 0
    &&& reply.last_receive_time_s == received
}

/// What a timestamp reply tells, so many milliseconds after midnight.
pub open spec fn timestamp_reply_tells(
    reply: PingReply,
    reflector: IpAddr,
    sequence: u16,
    originate: u32,
    receive: u32,
    transmit: u32,
    time_since_midnight: i64,
    received: u128,
) -> bool {
    &&& reply.reflector == reflector
    &&& reply.seq == sequence
    &&& reply.rtt == time_since_midnight - originate
    &&& reply.current_time == time_since_midnight
    &&& reply.down_time == Float64::of_integer(time_since_midnight - transmit)
    &&& reply.up_time == Float64::of_integer(receive - originate)
    &&& reply.originate_timestamp == originate
    &&& reply.receive_timestamp == receive
    &&& reply.transmit_timestamp == transmit
    &&& reply.last_receive_time_s == received
}

/// Why `packet` is no reply to a request with the identifier `id`; `None` where it is one.
pub open spec fn refusal(packet: PacketView, id: u16) -> Option<PingErrorView> {
    if packet.typ == ECHO_REPLY {
        match packet.message {
            MessageView::EchoReply { identifier, payload, .. } => if identifier != id {
                Some(PingErrorView::WrongID { expected: id, found: identifier })
            } else if payload.len() != 8 {
                Some(bad_payload(payload.len()))
            } else {
                None
            },
            _ => Some(bad_structure(packet.typ)),
        }
    } else if packet.typ == TIMESTAMP_REPLY {
        match packet.message {
            MessageView::TimestampReply { identifier, .. } => if identifier != id {
                Some(PingErrorView::WrongID { expected: id, found: identifier })
            } else {
                None
            },
            _ => Some(bad_structure(packet.typ)),
        }
    } else {
        Some(bad_type(packet.typ))
    }
}

/// Whether `reply` is what `packet`, which is a reply, tells. `reading` is when it was looked
/// at: by the monotonic clock for an echo reply, by the time of day for a timestamp reply.
pub open spec fn tells(
    packet: PacketView,
    reflector: IpAddr,
    reply: PingReply,
    reading: Time,
    received: u128,
) -> bool {
    match packet.message {
        MessageView::EchoReply { sequence, payload, .. } => {
            &&& reading.read_from(ClockId::Monotonic)
            &&& echo_reply_tells(
                reply,
                reflector,
                sequence,
                signed(be_value(payload) as u64),
                reading.held_ms() as i64,
                received,
            )
        },
        MessageView::TimestampReply { sequence, originate, receive, transmit, .. } => {
            &&& reading.read_from(ClockId::Realtime)
            &&& timestamp_reply_tells(
                reply,
                reflector,
                sequence,
                originate,
                receive,
                transmit,
                reading.since_midnight() as i64,
                received,
            )
        },
        _ => false,
    }
}

impl PingerICMPTimestampListener {
    /// Notes that `packet` came from `reflector`.
    pub fn note_packet(
        &self,
        known: &mut ReflectorStates,
        id: u16,
        reflector: IpAddr,
        packet: &Packet,
        now: u128,
    )
        ensures
            final(known).poisoned == old(known).poisoned,
            final(known).states@ == noted(
                old(known).states@,
                old(known).poisoned,
                id,
                reflector,
                packet@,
                now,
            ),
    {
        if known.poisoned {
            return;
        }
        let state: ReflectorState = known.state(reflector, now);
        match &packet.message {
            Message::EchoReply { identifier, .. } => {
                if packet.typ == ECHO_REPLY && *identifier == id {
                    known.states.insert(
                        reflector,
                        ReflectorState { consecutive_fails: 0, ..state },
                    );
                }
            },
            Message::TimestampReply { identifier, .. } => {
                if packet.typ == TIMESTAMP_REPLY && *identifier == id {
                    known.states.insert(
                        reflector,
                        ReflectorState {
                            current_mode: PingMode::Timestamp,
                            consecutive_fails: 0,
                            ..state
                        },
                    );
                }
            },
            _ => {},
        }
    }

    /// What an echo reply tells at `time_ms`, if it answers the request with the
    /// identifier `id`.
    pub fn echo_reply(
        id: u16,
        reflector: IpAddr,
        identifier: u16,
        sequence: u16,
        payload: &Vec<u8>,
        time_ms: i64,
        received: u128,
    ) -> (r: Result<PingReply, PingError>)
        ensures
            match r {
                Ok(reply) => {
                    &&& identifier == id
                    &&& payload@.len() == 8
                    &&& echo_reply_tells(
                        reply,
                        reflector,
                        sequence,
                        signed(be_value(payload@) as u64),
                        time_ms,
                        received,
                    )
                },
                Err(e) => if identifier != id {
                    e@ == (PingErrorView::WrongID { expected: id, found: identifier })
                } else {
                    payload@.len() != 8 && e@ == bad_payload(payload@.len())
                },
            },
    {
        if identifier != id {
            return Err(PingError::WrongID { expected: id, found: identifier });
        }
        if payload.len() != 8 {
            return Err(PingError::payload(payload.len()));
        }
        let time_sent: i64 = to_signed(from_be_bytes(payload));
        let rtt: i64 = wrapping_difference(time_ms, time_sent);
        let half: Float64 = Float64::from_integer(rtt as i128).divide(Float64::from_integer(2));
        Ok(
            PingReply {
                reflector,
                seq: sequence,
                rtt,
                current_time: time_ms,
                down_time: half,
                up_time: half,
                originate_timestamp: time_sent,
                receive_timestamp: 0,
                transmit_timestamp: 0,
                last_receive_time_s: received,
            },
        )
    }

    /// What a timestamp reply tells, so many milliseconds after midnight.
    pub fn timestamp_reply(
        reflector: IpAddr,
        sequence: u16,
        originate: u32,
        receive: u32,
        transmit: u32,
        time_since_midnight: i64,
        received: u128,
    ) -> (r: PingReply)
        requires
            0 <= time_since_midnight < DAY_MS,
        ensures
            timestamp_reply_tells(
                r,
                reflector,
                sequence,
                originate,
                receive,
                transmit,
                time_since_midnight,
                received,
            ),
    {
        PingReply {
            reflector,
            seq: sequence,
            rtt: time_since_midnight - originate as i64,
            current_time: time_since_midnight,
            down_time: Float64::from_integer(time_since_midnight as i128 - transmit as i128),
            up_time: Float64::from_integer(receive as i128 - originate as i128),
            originate_timestamp: originate as i64,
            receive_timestamp: receive as i64,
            transmit_timestamp: transmit as i64,
            last_receive_time_s: received,
        }
    }

    /// Takes in a packet that came from `reflector`: what it tells, if it answers a request
    /// with the identifier `id`. The clocks are read on the way, so the contract says that
    /// the outcome is right for some reading of them.
    pub fn parse_packet(
        &self,
        known: &mut ReflectorStates,
        clock: &Clock,
        id: u16,
        reflector: IpAddr,
        packet: &Packet,
    ) -> (r: Result<PingReply, PingError>)
        ensures
            final(known).poisoned == old(known).poisoned,
            exists|now: u128|
                clock.can_show(now) && final(known).states@ == #[trigger] noted(
                    old(known).states@,
                    old(known).poisoned,
                    id,
                    reflector,
                    packet@,
                    now,
                ),
            match r {
                Ok(reply) => {
                    &&& refusal(packet@, id) is None
                    &&& exists|reading: Time, received: u128|
                        clock.can_show(received) && #[trigger] tells(
                            packet@,
                            reflector,
                            reply,
                            reading,
                            received,
                        )
                },
                Err(e) => refusal(packet@, id) == Some(e@),
            },
    {
        let now: u128 = clock.now();
        self.note_packet(known, id, reflector, packet, now);
        if packet.typ == ECHO_REPLY {
            match &packet.message {
                Message::EchoReply { identifier, sequence, payload } => {
                    let reading: Time = Time::new(ClockId::Monotonic);
                    let time_ms: i64 = to_signed(reading.to_milliseconds());
                    let received: u128 = clock.now();
                    let r = Self::echo_reply(
                        id,
                        reflector,
                        *identifier,
                        *sequence,
                        payload,
                        time_ms,
                        received,
                    );
                    proof {
                        if let Ok(reply) = r {
                            assert(tells(packet@, reflector, reply, reading, received));
                        }
                    }
                    r
                },
                _ => Err(PingError::structure(packet.typ)),
            }
        } else if packet.typ == TIMESTAMP_REPLY {
            match &packet.message {
                Message::TimestampReply { identifier, sequence, originate, receive, transmit } => {
                    if *identifier != id {
                        return Err(PingError::WrongID { expected: id, found: *identifier });
                    }
                    let reading: Time = Time::new(ClockId::Realtime);
                    let midnight: i64 = reading.get_time_since_midnight();
                    let received: u128 = clock.now();
                    let reply = Self::timestamp_reply(
                        reflector,
                        *sequence,
                        *originate,
                        *receive,
                        *transmit,
                        midnight,
                        received,
                    );
                    assert(tells(packet@, reflector, reply, reading, received));
                    Ok(reply)
                },
                _ => Err(PingError::structure(packet.typ)),
            }
        } else {
            Err(PingError::wrong_type(packet.typ))
        }
    }
}

/// What is known of a reflector after one more request to it, and what kind of request that
/// is. `switched`, `checked` and `retried` are the times at which timestamps are given up,
/// their age is looked at, and they are tried again.
pub open spec fn requested(
    state: ReflectorState,
    switched: u128,
    checked: u128,
    retried: u128,
) -> (ReflectorState, PingMode) {
    let fails = if state.consecutive_fails == u32::MAX {
        0
    } else {
        (state.consecutive_fails + 1) as u32
    };
    let gives_up = state.current_mode == PingMode::Timestamp && fails >= FAILS_BEFORE_ECHO;
    let mode = if gives_up {
        PingMode::Echo
    } else {
        state.current_mode
    };
    let attempt = if gives_up {
        switched
    } else {
        state.last_timestamp_attempt
    };
    if mode == PingMode::Echo && seconds(checked, attempt) >= RETRY_SECONDS {
        (
            ReflectorState {
                current_mode: mode,
                consecutive_fails: fails,
                last_timestamp_attempt: retried,
            },
            PingMode::Timestamp,
        )
    } else {
        (
            ReflectorState {
                current_mode: mode,
                consecutive_fails: fails,
                last_timestamp_attempt: attempt,
            },
            mode,
        )
    }
}

/// Whether `packet` is the request of kind `mode`, sent at the given times.
pub open spec fn is_request(
    packet: PacketView,
    mode: PingMode,
    id: u16,
    seq: u16,
    time_ms: u64,
    time_since_midnight: u32,
) -> bool {
    match mode {
        PingMode::Timestamp => packet == timestamp_request(id, seq, time_since_midnight),
        PingMode::Echo => exists|payload: Seq<u8>|
            {
                &&& packet == #[trigger] echo_request(id, seq, payload)
                &&& payload.len() == 8
                &&& be_value(payload) == time_ms
            },
    }
}

/// Whether `packet` is the request of kind `mode`, made at `reading`: by the time of day for
/// a timestamp request, by the monotonic clock for an echo request.
pub open spec fn requested_at(
    packet: PacketView,
    mode: PingMode,
    id: u16,
    seq: u16,
    reading: Time,
) -> bool {
    match mode {
        PingMode::Timestamp => {
            &&& reading.read_from(ClockId::Realtime)
            &&& is_request(packet, mode, id, seq, 0, reading.since_midnight() as u32)
        },
        PingMode::Echo => {
            &&& reading.read_from(ClockId::Monotonic)
            &&& is_request(packet, mode, id, seq, reading.held_ms() as u64, 0)
        },
    }
}

/// Whether `packet` is the next request to `reflector`, and `after` what is then known of the
/// reflectors. `times` are those at which an unknown reflector becomes known, timestamps are
/// given up, their age is looked at, and they are tried again; `reading` is when the request
/// was made.
pub open spec fn crafted(
    before: Map<IpAddr, ReflectorState>,
    poisoned: bool,
    after: Map<IpAddr, ReflectorState>,
    reflector: IpAddr,
    id: u16,
    seq: u16,
    packet: PacketView,
    times: (u128, u128, u128, u128),
    reading: Time,
) -> bool {
    let (state, mode) = requested(
        state_of(before, reflector, times.0),
        times.1,
        times.2,
        times.3,
    );
    &&& if poisoned {
        &&& after == before
        &&& requested_at(packet, PingMode::Timestamp, id, seq, reading)
    } else {
        &&& after == before.insert(reflector, state)
        &&& requested_at(packet, mode, id, seq, reading)
    }
}

impl PingerICMPTimestampSender {
    /// What is known of a reflector after one more request to it, and what kind of request
    /// that is.
    pub fn next_request(
        state: ReflectorState,
        switched: u128,
        checked: u128,
        retried: u128,
    ) -> (r: (ReflectorState, PingMode))
        ensures
            r == requested(state, switched, checked, retried),
    {
        let mut st: ReflectorState = state;
        st.consecutive_fails = if st.consecutive_fails == u32::MAX {
            0
        } else {
            st.consecutive_fails + 1
        };
        if st.current_mode == PingMode::Timestamp && st.consecutive_fails >= FAILS_BEFORE_ECHO {
            st.current_mode = PingMode::Echo;
            st.last_timestamp_attempt = switched;
        }
        if st.current_mode == PingMode::Echo && seconds_between(checked, st.last_timestamp_attempt)
            >= RETRY_SECONDS {
            st.last_timestamp_attempt = retried;
            (st, PingMode::Timestamp)
        } else {
            (st, st.current_mode)
        }
    }

    /// The request of kind `mode`, sent at the given times.
    pub fn request(mode: PingMode, id: u16, seq: u16, time_ms: u64, time_since_midnight: u32) -> (r:
        Packet)
        ensures
            is_request(r@, mode, id, seq, time_ms, time_since_midnight),
    {
        match mode {
            PingMode::Timestamp => with_timestamp_request(id, seq, time_since_midnight),
            PingMode::Echo => {
                let payload: Vec<u8> = to_be_bytes(time_ms);
                with_echo_request(id, seq, payload)
            },
        }
    }

    /// Makes the next request to `reflector`. The clocks are read on the way, so the
    /// contract says that the outcome is right for some reading of them.
    pub fn craft_packet(
        &self,
        known: &mut ReflectorStates,
        clock: &Clock,
        id: u16,
        seq: u16,
        reflector: IpAddr,
    ) -> (r: Packet)
        ensures
            final(known).poisoned == old(known).poisoned,
            exists|now: u128, switched: u128, checked: u128, retried: u128, reading: Time|
                {
                    &&& clock.can_show(now)
                    &&& clock.can_show(switched)
                    &&& clock.can_show(checked)
                    &&& clock.can_show(retried)
                    &&& #[trigger] crafted(
                        old(known).states@,
                        old(known).poisoned,
                        final(known).states@,
                        reflector,
                        id,
                        seq,
                        r@,
                        (now, switched, checked, retried),
                        reading,
                    )
                },
    {
        let mut mode: PingMode = PingMode::Timestamp;
        let now: u128 = clock.now();
        let switched: u128 = clock.now();
        let checked: u128 = clock.now();
        let retried: u128 = clock.now();
        if !known.poisoned {
            let state: ReflectorState = known.state(reflector, now);
            let (next, kind) = Self::next_request(state, switched, checked, retried);
            known.states.insert(reflector, next);
            mode = kind;
        }
        let reading: Time = Time::new(
            match mode {
                PingMode::Timestamp => ClockId::Realtime,
                PingMode::Echo => ClockId::Monotonic,
            },
        );
        let r: Packet = match mode {
            PingMode::Timestamp => {
                let midnight: u32 = reading.get_time_since_midnight() as u32;
                Self::request(mode, id, seq, 0, midnight)
            },
            PingMode::Echo => Self::request(mode, id, seq, reading.to_milliseconds(), 0),
        };
        assert(crafted(
            old(known).states@,
            old(known).poisoned,
            known.states@,
            reflector,
            id,
            seq,
            r@,
            (now, switched, checked, retried),
            reading,
        ));
        r
    }
}

/// An echo request comes back: the reply that carries what the request carried is accepted,
/// and tells when the request was sent and how long it was under way.
pub proof fn law_echo_round_trip(
    request: PacketView,
    reply: PacketView,
    told: PingReply,
    id: u16,
    seq: u16,
    reflector: IpAddr,
    sent: Time,
    reading: Time,
    received: u128,
)
    requires
        requested_at(request, PingMode::Echo, id, seq, sent),
        reply.typ == ECHO_REPLY,
        reply.message == (MessageView::EchoReply {
            identifier: request.message->Echo_identifier,
            sequence: request.message->Echo_sequence,
            payload: request.message->Echo_payload,
        }),
        tells(reply, reflector, told, reading, received),
    ensures
        refusal(reply, id) is None,
        answers(reply, id),
        told.reflector == reflector,
        told.seq == seq,
        told.originate_timestamp == sent.held_ms(),
        told.rtt == reading.held_ms() - sent.held_ms(),
        told.down_time.plus(told.up_time) == Float64::of_integer(told.rtt as int),
{
    law_halves_add_up(told.rtt as int);
}

/// A timestamp request and its reply: what the reply tells of the round trip is the way there,
/// the time at the reflector, and the way back.
pub proof fn law_timestamp_delays_add_up(
    request: PacketView,
    reply: PacketView,
    told: PingReply,
    id: u16,
    seq: u16,
    reflector: IpAddr,
    sent: Time,
    reading: Time,
    receive: u32,
    transmit: u32,
    received: u128,
)
    requires
        requested_at(request, PingMode::Timestamp, id, seq, sent),
        reply.typ == TIMESTAMP_REPLY,
        reply.message == (MessageView::TimestampReply {
            identifier: request.message->Timestamp_identifier,
            sequence: request.message->Timestamp_sequence,
            originate: request.message->Timestamp_originate,
            receive,
            transmit,
        }),
        tells(reply, reflector, told, reading, received),
    ensures
        refusal(reply, id) is None,
        answers(reply, id),
        told.seq == seq,
        told.originate_timestamp == sent.since_midnight(),
        told.rtt == reading.since_midnight() - sent.since_midnight(),
        told.up_time.value() + (transmit - receive) * unit() + told.down_time.value() == told.rtt
            * unit(),
        told.up_time.value() == (receive - sent.since_midnight()) * unit(),
        told.down_time.value() == (reading.since_midnight() - transmit) * unit(),
{
    let from = sent.since_midnight();
    let to = reading.since_midnight();
    law_whole_numbers_are_exact(to - transmit);
    law_whole_numbers_are_exact(receive - from);
    let u = unit();
    assert((receive - from) * u + (transmit - receive) * u + (to - transmit) * u == (to - from)
        * u) by (nonlinear_arith);
}

/// What is known of a reflector after requests at the given times that it did not answer.
pub open spec fn after_requests(
    state: ReflectorState,
    times: Seq<(u128, u128, u128)>,
) -> ReflectorState
    decreases times.len(),
{
    if times.len() == 0 {
        state
    } else {
        let t = times.last();
        requested(after_requests(state, times.drop_last()), t.0, t.1, t.2).0
    }
}

/// A reflector that stops answering is asked for timestamps nine more times; with the tenth
/// request, timestamps are given up, and stay so until it answers.
pub proof fn law_unanswered_requests_end_in_echo(
    state: ReflectorState,
    times: Seq<(u128, u128, u128)>,
)
    requires
        state.current_mode == PingMode::Timestamp,
        state.consecutive_fails == 0,
    ensures
        times.len() < FAILS_BEFORE_ECHO ==> {
            &&& after_requests(state, times).current_mode == PingMode::Timestamp
            &&& after_requests(state, times).consecutive_fails == times.len()
        },
        times.len() >= FAILS_BEFORE_ECHO ==> after_requests(state, times).current_mode
            == PingMode::Echo,
    decreases times.len(),
{
    if times.len() > 0 {
        law_unanswered_requests_end_in_echo(state, times.drop_last());
    }
}

/// As long as timestamps have not been given up, they are what is asked for.
pub proof fn law_timestamps_until_given_up(
    state: ReflectorState,
    switched: u128,
    checked: u128,
    retried: u128,
)
    requires
        requested(state, switched, checked, retried).0.current_mode == PingMode::Timestamp,
    ensures
        requested(state, switched, checked, retried).1 == PingMode::Timestamp,
{
}

/// A reflector that is pinged by echo requests is asked for timestamps only when an hour has
/// gone by since the last time, and then not for another hour.
pub proof fn law_timestamps_retried_hourly(
    state: ReflectorState,
    first: (u128, u128, u128),
    second: (u128, u128, u128),
)
    requires
        state.current_mode == PingMode::Echo,
    ensures
        requested(state, first.0, first.1, first.2).1 == PingMode::Timestamp <==> seconds(
            first.1,
            state.last_timestamp_attempt,
        ) >= RETRY_SECONDS,
        ({
            let (next, kind) = requested(state, first.0, first.1, first.2);
            kind == PingMode::Timestamp && seconds(second.1, first.2) < RETRY_SECONDS ==> requested(
                next,
                second.0,
                second.1,
                second.2,
            ).1 == PingMode::Echo
        }),
{
}

/// Any reply ends the count of unanswered requests; a timestamp reply brings timestamps back,
/// and an echo reply leaves the way of pinging as it is.
pub proof fn law_reply_resets(
    states: Map<IpAddr, ReflectorState>,
    id: u16,
    reflector: IpAddr,
    packet: PacketView,
    now: u128,
)
    requires
        answers(packet, id),
    ensures
        noted(states, false, id, reflector, packet, now)[reflector].consecutive_fails == 0,
        packet.typ == TIMESTAMP_REPLY ==> noted(
            states,
            false,
            id,
            reflector,
            packet,
            now,
        )[reflector].current_mode == PingMode::Timestamp,
        packet.typ == ECHO_REPLY ==> noted(
            states,
            false,
            id,
            reflector,
            packet,
            now,
        )[reflector].current_mode == state_of(states, reflector, now).current_mode,
        forall|other: IpAddr|
            other != reflector ==> {
                &&& noted(states, false, id, reflector, packet, now).contains_key(other)
                    == states.contains_key(other)
                &&& states.contains_key(other) ==> #[trigger] noted(
                    states,
                    false,
                    id,
                    reflector,
                    packet,
                    now,
                )[other] == states[other]
            },
{
}

/// Echo requests and their replies go by the monotonic clock, timestamp requests and theirs by
/// the time of day.
pub proof fn law_each_kind_has_its_clock(
    packet: PacketView,
    id: u16,
    seq: u16,
    reflector: IpAddr,
    reply: PingReply,
    reading: Time,
    received: u128,
)
    ensures
        requested_at(packet, PingMode::Echo, id, seq, reading) ==> reading.read_from(
            ClockId::Monotonic,
        ),
        requested_at(packet, PingMode::Timestamp, id, seq, reading) ==> reading.read_from(
            ClockId::Realtime,
        ),
        packet.message is EchoReply && tells(packet, reflector, reply, reading, received)
            ==> reading.read_from(ClockId::Monotonic) && reply.current_time == reading.held_ms(),
        packet.message is TimestampReply && tells(packet, reflector, reply, reading, received)
            ==> reading.read_from(ClockId::Realtime) && reply.current_time
            == reading.since_midnight(),
{
}

/// A reflector that nothing is known of is asked for timestamps, nine times; the hour after
/// which they would be tried again counts from the time at which it became known.
pub proof fn law_unknown_reflectors_are_asked_for_timestamps(
    states: Map<IpAddr, ReflectorState>,
    reflector: IpAddr,
    now: u128,
    times: Seq<(u128, u128, u128)>,
)
    requires
        !states.contains_key(reflector),
        times.len() <= 9,
    ensures
        after_requests(state_of(states, reflector, now), times).current_mode
            == PingMode::Timestamp,
        after_requests(state_of(states, reflector, now), times).last_timestamp_attempt == now,
        after_requests(state_of(states, reflector, now), times).consecutive_fails == times.len(),
    decreases times.len(),
{
    if times.len() > 0 {
        law_unknown_reflectors_are_asked_for_timestamps(
            states,
            reflector,
            now,
            times.drop_last(),
        );
    }
}

/// When timestamps are given up, with the tenth unanswered request, the hour begins at that
/// time; until then, and after a retry, it begins when it did.
pub proof fn law_hour_begins_when_given_up(
    state: ReflectorState,
    switched: u128,
    checked: u128,
    retried: u128,
)
    requires
        state.consecutive_fails < u32::MAX,
    ensures
        ({
            let (after, kind) = requested(state, switched, checked, retried);
            let gives_up = state.current_mode == PingMode::Timestamp && state.consecutive_fails
                + 1 >= 10;
            let since = if gives_up {
                switched
            } else {
                state.last_timestamp_attempt
            };
            let hour_over = checked >= since + 3_600_000_000_000;
            let echo = gives_up || state.current_mode == PingMode::Echo;
            &&& after.consecutive_fails == state.consecutive_fails + 1
            &&& after.current_mode == if echo {
                PingMode::Echo
            } else {
                PingMode::Timestamp
            }
            &&& kind == if echo && !hour_over {
                PingMode::Echo
            } else {
                PingMode::Timestamp
            }
            &&& after.last_timestamp_attempt == if echo && hour_over {
                retried
            } else {
                since
            }
        }),
{
}

/// A packet is accepted exactly where it is an echo reply with eight bytes of payload, or a
/// timestamp reply, and has the identifier of the requests. Where only the identifier is
/// wrong, the error tells both.
pub proof fn law_only_own_replies_are_accepted(packet: PacketView, id: u16)
    ensures
        refusal(packet, id) is None <==> {
            ||| packet.typ == 0 && packet.message is EchoReply
                && packet.message->EchoReply_identifier == id
                && packet.message->EchoReply_payload.len() == 8
            ||| packet.typ == 14 && packet.message is TimestampReply
                && packet.message->TimestampReply_identifier == id
        },
        packet.typ == 0 && packet.message is EchoReply && packet.message->EchoReply_identifier
            != id ==> refusal(packet, id) == Some(
            PingErrorView::WrongID {
                expected: id,
                found: packet.message->EchoReply_identifier,
            },
        ),
        packet.typ == 14 && packet.message is TimestampReply
            && packet.message->TimestampReply_identifier != id ==> refusal(packet, id) == Some(
            PingErrorView::WrongID {
                expected: id,
                found: packet.message->TimestampReply_identifier,
            },
        ),
        packet.typ != 0 && packet.typ != 14 ==> refusal(packet, id) is Some
            && refusal(packet, id)->0 is InvalidType,
{
}

} // verus!
