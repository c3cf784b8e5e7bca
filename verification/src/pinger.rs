//! What is known of each reflector, and what a ping tells.
use crate::address::{AddrMap, IpAddr};
use crate::float64::Float64;
use crate::text::{concatenated, decimal, decimal_text};
use vstd::prelude::*;

verus! {

/// How a reflector is pinged.
#[derive(Clone, Copy, Debug, PartialEq, Eq, Structural)]
pub enum PingMode {
    /// By timestamp requests, which tell the delay of each direction.
    Timestamp,
    /// By echo requests, which tell the round trip only.
    Echo,
}

/// How a reflector has been answering.
#[derive(Clone, Copy, Debug, PartialEq, Eq, Structural)]
pub struct ReflectorState {
    pub current_mode: PingMode,
    /// Requests since the last reply.
    pub consecutive_fails: u32,
    /// When timestamps were last given up or tried again, in nanoseconds.
    pub last_timestamp_attempt: u128,
}

impl ReflectorState {
    /// A reflector of which nothing is known.
    pub open spec fn unknown(now: u128) -> ReflectorState {
        ReflectorState {
            current_mode: PingMode::Timestamp,
            consecutive_fails: 0,
            last_timestamp_attempt: now,
        }
    }

    /// A reflector of which nothing is known.
    pub fn default_at(now: u128) -> (r: ReflectorState)
        ensures
            r == ReflectorState::unknown(now),
    {
        ReflectorState {
            current_mode: PingMode::Timestamp,
            consecutive_fails: 0,
            last_timestamp_attempt: now,
        }
    }
}

/// What is known of all reflectors. Those who share this lock it; where one of them died
/// with the lock held, what is known is neither used nor changed any more.
pub struct ReflectorStates {
    pub poisoned: bool,
    pub states: AddrMap<ReflectorState>,
}

/// What is known of `reflector`, or at `now` becomes known of it.
pub open spec fn state_of(
    states: Map<IpAddr, ReflectorState>,
    reflector: IpAddr,
    now: u128,
) -> ReflectorState {
    if states.contains_key(reflector) {
        states[reflector]
    } else {
        ReflectorState::unknown(now)
    }
}

impl ReflectorStates {
    /// Nothing known of any reflector.
    pub fn new() -> (r: ReflectorStates)
        ensures
            !r.poisoned,
            r.states@ == Map::<IpAddr, ReflectorState>::empty(),
    {
        ReflectorStates { poisoned: false, states: AddrMap::new() }
    }

    /// What is known of `reflector`, or at `now` becomes known of it.
    pub fn state(&self, reflector: IpAddr, now: u128) -> (r: ReflectorState)
        ensures
            r == state_of(self.states@, reflector, now),
    {
        match self.states.get(reflector) {
            Some(state) => *state,
            None => ReflectorState::default_at(now),
        }
    }
}

/// Why a packet is no usable reply.
#[derive(Debug)]
pub enum PingError {
    /// The reply is to somebody else's request.
    WrongID { expected: u16, found: u16 },
    /// The packet does not hold what a packet of its type should.
    InvalidPacket(String),
    /// The packet is of a type that is no reply.
    InvalidType(String),
}

/// A `PingError`, for contracts.
pub enum PingErrorView {
    WrongID { expected: u16, found: u16 },
    InvalidPacket(Seq<char>),
    InvalidType(Seq<char>),
}

impl View for PingError {
    type V = PingErrorView;

    open spec fn view(&self) -> PingErrorView {
        match self {
            PingError::WrongID { expected, found } => PingErrorView::WrongID {
                expected: *expected,
                found: *found,
            },
            PingError::InvalidPacket(s) => PingErrorView::InvalidPacket(s@),
            PingError::InvalidType(s) => PingErrorView::InvalidType(s@),
        }
    }
}

/// The payload of an echo reply has `len` bytes, and not 8.
pub open spec fn bad_payload(len: nat) -> PingErrorView {
    PingErrorView::InvalidPacket("Expected 8 bytes payload, but found "@ + decimal(len) + ""@)
}

/// The packet is of the type `typ`, and is not built like it.
pub open spec fn bad_structure(typ: u8) -> PingErrorView {
    PingErrorView::InvalidPacket(
        "Packet had type "@ + decimal(typ as nat) + ", but did not match the structure"@,
    )
}

/// The packet is of the type `typ`, which is no reply.
pub open spec fn bad_type(typ: u8) -> PingErrorView {
    PingErrorView::InvalidType(decimal(typ as nat))
}

impl PingError {
    /// The payload of an echo reply has `len` bytes, and not 8.
    pub fn payload(len: usize) -> (r: PingError)
        ensures
            r@ == bad_payload(len as nat),
    {
        PingError::InvalidPacket(
            concatenated(
                "Expected 8 bytes payload, but found ",
                decimal_text(len as u64).as_str(),
                "",
            ),
        )
    }

    /// The packet is of the type `typ`, and is not built like it.
    pub fn structure(typ: u8) -> (r: PingError)
        ensures
            r@ == bad_structure(typ),
    {
        PingError::InvalidPacket(
            concatenated(
                "Packet had type ",
                decimal_text(typ as u64).as_str(),
                ", but did not match the structure",
            ),
        )
    }

    /// The packet is of the type `typ`, which is no reply.
    pub fn wrong_type(typ: u8) -> (r: PingError)
        ensures
            r@ == bad_type(typ),
    {
        PingError::InvalidType(decimal_text(typ as u64))
    }
}

/// What a reply tells. Times are in milliseconds, of the clock that the request went by.
#[derive(Clone, Copy, Debug, PartialEq, Eq, Structural)]
pub struct PingReply {
    pub reflector: IpAddr,
    pub seq: u16,
    /// The time from the request to the reply.
    pub rtt: i64,
    /// When the reply was looked at.
    pub current_time: i64,
    /// The delay on the way back.
    pub down_time: Float64,
    /// The delay on the way there.
    pub up_time: Float64,
    pub originate_timestamp: i64,
    pub receive_timestamp: i64,
    pub transmit_timestamp: i64,
    /// When the reply was looked at, in nanoseconds.
    pub last_receive_time_s: u128,
}

/// What the delays from a reflector have been, averaged so that recent ones count more, in
/// milliseconds.
#[derive(Clone, Copy, Debug, PartialEq, Eq, Structural)]
pub struct ReflectorStats {
    /// When the last reply came, in nanoseconds.
    pub last_receive_time_s: u128,
    pub down_ewma: Float64,
    pub up_ewma: Float64,
}

} // verus!
