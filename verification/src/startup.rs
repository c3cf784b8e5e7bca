//! What is decided once, when the program starts.
use crate::address::{ipv4, IpAddr};
use crate::config::{Config, UNLIMITED};
use crate::float64::Float64;
use crate::ratecontroller::StatsDirection;
use crate::text::starts_with;
use vstd::prelude::*;

verus! {

/// The identifier of all requests that the process `pid` sends: two bytes, as much as a
/// packet has room for.
pub fn request_id(pid: u32) -> (r: u16)
    ensures
        r == pid % 0x1_0000,
{
    (pid % 0x1_0000) as u16
}

/// The version 4 address with the given four bytes.
pub open spec fn dotted(a: int, b: int, c: int, d: int) -> IpAddr {
    IpAddr::V4((a * 0x100_0000 + b * 0x1_0000 + c * 0x100 + d) as u32)
}

/// The reflectors to use where none are named.
pub open spec fn default_reflectors() -> Seq<IpAddr> {
    seq![
        dotted(9, 9, 9, 9),
        dotted(8, 238, 120, 14),
        dotted(74, 82, 42, 42),
        dotted(194, 242, 2, 2),
        dotted(208, 67, 222, 222),
        dotted(94, 140, 14, 14),
    ]
}

/// The reflectors to use: those that are named, if there are any.
pub fn reflectors_or_defaults(reflectors: Vec<IpAddr>) -> (r: Vec<IpAddr>)
    ensures
        r@ == if reflectors@.len() == 0 {
            default_reflectors()
        } else {
            reflectors@
        },
{
    if reflectors.len() > 0 {
        return reflectors;
    }
    let mut defaults: Vec<IpAddr> = Vec::new();
    defaults.push(ipv4(9, 9, 9, 9));
    defaults.push(ipv4(8, 238, 120, 14));
    defaults.push(ipv4(74, 82, 42, 42));
    defaults.push(ipv4(194, 242, 2, 2));
    defaults.push(ipv4(208, 67, 222, 222));
    defaults.push(ipv4(94, 140, 14, 14));
    defaults
}

/// The reflectors to measure with first: as many as are needed, from the front.
pub fn first_peers(reflectors: &Vec<IpAddr>, num_reflectors: u8) -> (r: Vec<IpAddr>)
    ensures
        r@ == reflectors@.take(
            if num_reflectors < reflectors@.len() {
                num_reflectors as int
            } else {
                reflectors@.len() as int
            },
        ),
{
    let count: usize = if (num_reflectors as usize) < reflectors.len() {
        num_reflectors as usize
    } else {
        reflectors.len()
    };
    let mut peers: Vec<IpAddr> = Vec::new();
    let mut i: usize = 0;
    while i < count
        invariant
            i <= count <= reflectors.len(),
            peers@ == reflectors@.take(i as int),
        decreases count - i,
    {
        peers.push(reflectors[i]);
        i = i + 1;
    }
    peers
}

/// Whether there are reflectors to choose from: more than are needed.
pub fn needs_selector(reflectors: &Vec<IpAddr>, num_reflectors: u8) -> (r: bool)
    ensures
        r == (reflectors@.len() > num_reflectors),
{
    reflectors.len() > num_reflectors as usize
}

/// Whether `interface` is one end of a pair in which traffic changes sides: what comes in
/// from the line goes out through it.
pub open spec fn mirrored(interface: Seq<char>) -> bool {
    "ifb"@.is_prefix_of(interface) || "veth"@.is_prefix_of(interface)
}

/// The counter of `interface` that counts downloaded bytes.
pub open spec fn download_counter(interface: Seq<char>) -> StatsDirection {
    if mirrored(interface) {
        StatsDirection::TX
    } else {
        StatsDirection::RX
    }
}

/// The counter of `interface` that counts uploaded bytes.
pub open spec fn upload_counter(interface: Seq<char>) -> StatsDirection {
    if mirrored(interface) {
        StatsDirection::RX
    } else {
        StatsDirection::TX
    }
}

/// The counter of `interface` that counts downloaded bytes.
pub fn download_direction(interface: &str) -> (r: StatsDirection)
    ensures
        r == download_counter(interface@),
{
    if starts_with(interface, "ifb") || starts_with(interface, "veth") {
        StatsDirection::TX
    } else {
        StatsDirection::RX
    }
}

/// The counter of `interface` that counts uploaded bytes.
pub fn upload_direction(interface: &str) -> (r: StatsDirection)
    ensures
        r == upload_counter(interface@),
{
    if starts_with(interface, "ifb") || starts_with(interface, "veth") {
        StatsDirection::RX
    } else {
        StatsDirection::TX
    }
}

/// On one interface, the bytes of one direction are never counted as those of the other.
pub proof fn law_directions_differ(interface: Seq<char>)
    ensures
        download_counter(interface) != upload_counter(interface),
{
}

/// The interfaces whose names begin with `ifb` or `veth` count downloaded bytes as sent ones;
/// all others count them as received ones.
pub proof fn law_mirrored_by_name(interface: Seq<char>)
    ensures
        download_counter(interface) == StatsDirection::TX <==> {
            ||| interface.len() >= 3 && interface[0] == 'i' && interface[1] == 'f' && interface[2]
                == 'b'
            ||| interface.len() >= 4 && interface[0] == 'v' && interface[1] == 'e' && interface[2]
                == 't' && interface[3] == 'h'
        },
{
    reveal_strlit("ifb");
    reveal_strlit("veth");
    if interface.len() >= 3 {
        assert(interface.subrange(0, 3) == "ifb"@ <==> interface[0] == 'i' && interface[1] == 'f'
            && interface[2] == 'b') by {
            assert(interface.subrange(0, 3)[0] == interface[0]);
            assert(interface.subrange(0, 3)[1] == interface[1]);
            assert(interface.subrange(0, 3)[2] == interface[2]);
        }
    }
    if interface.len() >= 4 {
        assert(interface.subrange(0, 4) == "veth"@ <==> interface[0] == 'v' && interface[1] == 'e'
            && interface[2] == 't' && interface[3] == 'h') by {
            assert(interface.subrange(0, 4)[0] == interface[0]);
            assert(interface.subrange(0, 4)[1] == interface[1]);
            assert(interface.subrange(0, 4)[2] == interface[2]);
            assert(interface.subrange(0, 4)[3] == interface[3]);
        }
    }
}

/// Whether a base rate means that there is none: 10 Gbit/s.
pub fn is_unlimited(rate: Float64) -> (r: bool)
    ensures
        r == rate.same_number(Float64 { bits: UNLIMITED }),
{
    rate.equals(Float64 { bits: UNLIMITED })
}

/// The rates of the two shapers, download and upload, while the first delays are measured.
pub open spec fn settling(config: Config) -> (Float64, Float64) {
    (config.download_min_kbits, config.upload_min_kbits)
}

/// While the first delays are measured, each shaper runs at the smallest rate of its own
/// direction, whatever the other settings are.
pub proof fn law_settles_at_its_own_minimum(a: Config, b: Config)
    ensures
        a.download_min_kbits == b.download_min_kbits <==> settling(a).0 == settling(b).0,
        a.upload_min_kbits == b.upload_min_kbits <==> settling(a).1 == settling(b).1,
        settling(a).0.same_number(a.download_min_kbits) || a.download_min_kbits.nan(),
        settling(a).1.same_number(a.upload_min_kbits) || a.upload_min_kbits.nan(),
{
}

/// The rates of the two shapers while the first delays are measured, in kbit/s: the smallest,
/// so that no queue spoils them.
pub fn settling_rates(config: &Config) -> (r: (u64, u64))
    ensures
        r.0 == settling(*config).0.truncated(),
        r.1 == settling(*config).1.truncated(),
{
    (config.download_min_kbits.to_u64(), config.upload_min_kbits.to_u64())
}

} // verus!
