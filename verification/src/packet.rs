//! ICMP packets, and the numbers in them.
use icmp_socket::packet::{Icmpv4Message, Icmpv4Packet, WithEchoRequest};
use vstd::prelude::*;

verus! {

/// The type of an echo reply.
pub const ECHO_REPLY: u8 = 0;

/// The type of an echo request.
pub const ECHO_REQUEST: u8 = 8;

/// The type of a timestamp request.
pub const TIMESTAMP_REQUEST: u8 = 13;

/// The type of a timestamp reply.
pub const TIMESTAMP_REPLY: u8 = 14;

/// What an ICMP packet carries.
#[derive(Debug)]
pub enum Message {
    Echo { identifier: u16, sequence: u16, payload: Vec<u8> },
    EchoReply { identifier: u16, sequence: u16, payload: Vec<u8> },
    Timestamp { identifier: u16, sequence: u16, originate: u32, receive: u32, transmit: u32 },
    TimestampReply { identifier: u16, sequence: u16, originate: u32, receive: u32, transmit: u32 },
    /// Any other message.
    Other,
}

/// A `Message`, for contracts.
pub enum MessageView {
    Echo { identifier: u16, sequence: u16, payload: Seq<u8> },
    EchoReply { identifier: u16, sequence: u16, payload: Seq<u8> },
    Timestamp { identifier: u16, sequence: u16, originate: u32, receive: u32, transmit: u32 },
    TimestampReply { identifier: u16, sequence: u16, originate: u32, receive: u32, transmit: u32 },
    Other,
}

impl View for Message {
    type V = MessageView;

    open spec fn view(&self) -> MessageView {
        match self {
            Message::Echo { identifier, sequence, payload } => MessageView::Echo {
                identifier: *identifier,
                sequence: *sequence,
                payload: payload@,
            },
            Message::EchoReply { identifier, sequence, payload } => MessageView::EchoReply {
                identifier: *identifier,
                sequence: *sequence,
                payload: payload@,
            },
            Message::Timestamp { identifier, sequence, originate, receive, transmit } => {
                MessageView::Timestamp {
                    identifier: *identifier,
                    sequence: *sequence,
                    originate: *originate,
                    receive: *receive,
                    transmit: *transmit,
                }
            },
            Message::TimestampReply { identifier, sequence, originate, receive, transmit } => {
                MessageView::TimestampReply {
                    identifier: *identifier,
                    sequence: *sequence,
                    originate: *originate,
                    receive: *receive,
                    transmit: *transmit,
                }
            },
            Message::Other => MessageView::Other,
        }
    }
}

/// An ICMP packet. The checksum of one that is yet to be sent is 0.
#[derive(Debug)]
pub struct Packet {
    pub typ: u8,
    pub code: u8,
    pub checksum: u16,
    pub message: Message,
}

/// A `Packet`, for contracts.
pub struct PacketView {
    pub typ: u8,
    pub code: u8,
    pub checksum: u16,
    pub message: MessageView,
}

impl View for Packet {
    type V = PacketView;

    open spec fn view(&self) -> PacketView {
        PacketView {
            typ: self.typ,
            code: self.code,
            checksum: self.checksum,
            message: self.message@,
        }
    }
}

/// An echo request that is yet to be sent.
pub open spec fn echo_request(identifier: u16, sequence: u16, payload: Seq<u8>) -> PacketView {
    PacketView {
        typ: ECHO_REQUEST,
        code: 0,
        checksum: 0,
        message: MessageView::Echo { identifier, sequence, payload },
    }
}

/// A timestamp request that is yet to be sent.
pub open spec fn timestamp_request(identifier: u16, sequence: u16, originate: u32) -> PacketView {
    PacketView {
        typ: TIMESTAMP_REQUEST,
        code: 0,
        checksum: 0,
        message: MessageView::Timestamp {
            identifier,
            sequence,
            originate,
            receive: 0,
            transmit: 0,
        },
    }
}

/// Calls `Icmpv4Packet::with_echo_request` of `icmp_socket`, which builds the packet of
/// type 8 and code 0, with no checksum yet, that carries the given numbers and bytes. It
/// has no way to fail.
#[verifier::external_body]
pub(crate) fn with_echo_request(identifier: u16, sequence: u16, payload: Vec<u8>) -> (r: Packet)
    ensures
        r@ == echo_request(identifier, sequence, payload@),
{
    let built = Icmpv4Packet::with_echo_request(identifier, sequence, payload).unwrap();
    let message = match built.message {
        Icmpv4Message::Echo { identifier, sequence, payload } => Message::Echo {
            identifier,
            sequence,
            payload,
        },
        _ => Message::Other,
    };
    Packet { typ: built.typ, code: built.code, checksum: built.checksum, message }
}

/// A timestamp request that is yet to be sent.
pub fn with_timestamp_request(identifier: u16, sequence: u16, originate: u32) -> (r: Packet)
    ensures
        r@ == timestamp_request(identifier, sequence, originate),
{
    Packet {
        typ: TIMESTAMP_REQUEST,
        code: 0,
        checksum: 0,
        message: Message::Timestamp { identifier, sequence, originate, receive: 0, transmit: 0 },
    }
}

/// The number that `bytes` stand for, the most significant first.
pub open spec fn be_value(bytes: Seq<u8>) -> nat
    decreases bytes.len(),
{
    if bytes.len() == 0 {
        0
    } else {
        256 * be_value(bytes.drop_last()) + bytes.last() as nat
    }
}

/// Two to the power 8 times `n`: what `n` bytes can tell apart.
pub open spec fn byte_range(n: nat) -> nat
    decreases n,
{
    if n == 0 {
        1
    } else {
        256 * byte_range((n - 1) as nat)
    }
}

/// `n` bytes stand for less than `byte_range(n)`.
proof fn lemma_be_value_bound(bytes: Seq<u8>)
    ensures
        be_value(bytes) < byte_range(bytes.len()),
    decreases bytes.len(),
{
    if bytes.len() > 0 {
        lemma_be_value_bound(bytes.drop_last());
    }
}

/// Eight bytes stand for a `u64`.
proof fn lemma_eight_bytes()
    ensures
        byte_range(8) == 0x1_0000_0000_0000_0000,
{
    reveal_with_fuel(byte_range, 9);
}

/// As many bytes that stand for the same number are the same bytes.
pub proof fn law_bytes_are_unique(a: Seq<u8>, b: Seq<u8>)
    requires
        a.len() == b.len(),
        be_value(a) == be_value(b),
    ensures
        a == b,
    decreases a.len(),
{
    if a.len() > 0 {
        law_bytes_are_unique(a.drop_last(), b.drop_last());
        assert(a == a.drop_last().push(a.last()));
        assert(b == b.drop_last().push(b.last()));
    } else {
        assert(a =~= b);
    }
}

/// The number that eight bytes stand for, the most significant first.
pub fn from_be_bytes(bytes: &Vec<u8>) -> (r: u64)
    requires
        bytes@.len() == 8,
    ensures
        r == be_value(bytes@),
{
    let mut n: u64 = 0;
    let mut i: usize = 0;
    proof {
        lemma_eight_bytes();
        assert(bytes@.take(0) == Seq::<u8>::empty());
    }
    while i < 8
        invariant
            i <= 8,
            bytes@.len() == 8,
            byte_range(8) == 0x1_0000_0000_0000_0000,
            n == be_value(bytes@.take(i as int)),
        decreases 8 - i,
    {
        proof {
            let next = bytes@.take(i + 1);
            assert(next.drop_last() == bytes@.take(i as int));
            lemma_be_value_bound(bytes@.take(i + 1));
            lemma_byte_range_grows((i + 1) as nat, 8);
        }
        n = n * 256 + bytes[i] as u64;
        i = i + 1;
    }
    assert(bytes@.take(8) == bytes@);
    n
}

/// More bytes tell more apart.
proof fn lemma_byte_range_grows(a: nat, b: nat)
    requires
        a <= b,
    ensures
        0 < byte_range(a) <= byte_range(b),
    decreases b,
{
    if a < b {
        lemma_byte_range_grows(a, (b - 1) as nat);
    } else if a > 0 {
        lemma_byte_range_grows((a - 1) as nat, (a - 1) as nat);
    }
}

/// The eight bytes that stand for `n`, the most significant first.
pub fn to_be_bytes(n: u64) -> (r: Vec<u8>)
    ensures
        r@.len() == 8,
        be_value(r@) == n,
{
    let mut r: Vec<u8> = Vec::new();
    let mut i: u64 = 8;
    proof {
        lemma_eight_bytes();
    }
    let mut rest: u64 = n;
    let mut unit: u64 = 0x0100_0000_0000_0000;
    assert(unit == byte_range(7)) by {
        reveal_with_fuel(byte_range, 8);
    }
    while i > 0
        invariant
            i <= 8,
            r@.len() == 8 - i,
            i > 0 ==> unit == byte_range((i - 1) as nat),
            rest < byte_range(i as nat),
            n == be_value(r@) * byte_range(i as nat) + rest,
        decreases i,
    {
        let ghost before = r@;
        let ghost high = be_value(before) as int;
        let b: u8 = (rest / unit) as u8;
        proof {
            lemma_byte_range_grows((i - 1) as nat, (i - 1) as nat);
            vstd::arithmetic::div_mod::lemma_fundamental_div_mod(rest as int, unit as int);
            assert(rest / unit < 256) by (nonlinear_arith)
                requires
                    rest < 256 * unit,
                    unit > 0,
            ;
            let q = (rest / unit) as int;
            assert(high * (256 * unit) + (unit * q + rest % unit) == (256 * high + q) * unit + rest
                % unit) by (nonlinear_arith);
        }
        r.push(b);
        assert(r@.drop_last() == before);
        rest = rest % unit;
        i = i - 1;
        if i > 0 {
            assert(byte_range(i as nat) == 256 * byte_range((i - 1) as nat));
            unit = unit / 256;
        }
    }
    assert(be_value(r@) * byte_range(0) == be_value(r@)) by (nonlinear_arith)
        requires
            byte_range(0) == 1,
    ;
    r
}

/// The integer that has the bits of `n` in two's complement.
pub open spec fn signed(n: u64) -> int {
    if n <= i64::MAX {
        n as int
    } else {
        n - 0x1_0000_0000_0000_0000
    }
}

/// The integer that has the bits of `n` in two's complement.
pub fn to_signed(n: u64) -> (r: i64)
    ensures
        r == signed(n),
{
    if n <= i64::MAX as u64 {
        n as i64
    } else {
        -((u64::MAX - n) as i64) - 1
    }
}

/// `n` brought into the range of `i64` by whole multiples of that range.
pub open spec fn wrapped(n: int) -> int {
    if n > i64::MAX {
        n - 0x1_0000_0000_0000_0000
    } else if n < i64::MIN {
        n + 0x1_0000_0000_0000_0000
    } else {
        n
    }
}

/// `a - b`, wrapped around at the ends of the range.
pub fn wrapping_difference(a: i64, b: i64) -> (r: i64)
    ensures
        r == wrapped(a - b),
{
    let difference: i128 = a as i128 - b as i128;
    if difference > i64::MAX as i128 {
        (difference - 0x1_0000_0000_0000_0000) as i64
    } else if difference < i64::MIN as i128 {
        (difference + 0x1_0000_0000_0000_0000) as i64
    } else {
        difference as i64
    }
}

/// Whether `payload` holds three numbers of four bytes each, the most significant byte first.
pub open spec fn holds_times(
    payload: Seq<u8>,
    originate: u32,
    receive: u32,
    transmit: u32,
) -> bool {
    &&& payload.len() == 12
    &&& be_value(payload.subrange(0, 4)) == originate
    &&& be_value(payload.subrange(4, 8)) == receive
    &&& be_value(payload.subrange(8, 12)) == transmit
}

/// The four bytes that stand for `n`, the most significant first.
fn to_four_bytes(n: u32) -> (r: [u8; 4])
    ensures
        be_value(r@) == n,
{
    let r: [u8; 4] = [
        (n / 0x100_0000) as u8,
        (n / 0x1_0000 % 0x100) as u8,
        (n / 0x100 % 0x100) as u8,
        (n % 0x100) as u8,
    ];
    proof {
        let s3 = r@.drop_last();
        let s2 = s3.drop_last();
        let s1 = s2.drop_last();
        assert(be_value(s1.drop_last()) == 0);
        assert(be_value(s1) == r@[0]);
        assert(be_value(s2) == 256 * be_value(s1) + r@[1]);
        assert(be_value(s3) == 256 * be_value(s2) + r@[2]);
        assert(be_value(r@) == 256 * be_value(s3) + r@[3]);
    }
    r
}

/// What a timestamp request carries behind its identifier and its sequence number.
pub fn times_payload(originate: u32, receive: u32, transmit: u32) -> (r: Vec<u8>)
    ensures
        holds_times(r@, originate, receive, transmit),
{
    let o: [u8; 4] = to_four_bytes(originate);
    let x: [u8; 4] = to_four_bytes(receive);
    let t: [u8; 4] = to_four_bytes(transmit);
    let mut r: Vec<u8> = Vec::new();
    let words: [[u8; 4]; 3] = [o, x, t];
    let mut i: usize = 0;
    while i < 12
        invariant
            i <= 12,
            r@.len() == i,
            forall|k: int| 0 <= k < i ==> r@[k] == words@[k / 4]@[k % 4],
        decreases 12 - i,
    {
        r.push(words[i / 4][i % 4]);
        i = i + 1;
    }
    assert(r@.subrange(0, 4) =~= o@);
    assert(r@.subrange(4, 8) =~= x@);
    assert(r@.subrange(8, 12) =~= t@);
    r
}

} // verus!
