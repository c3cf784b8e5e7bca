//! IP addresses, and what is kept for each of them.
use std::collections::HashMap;
use vstd::prelude::*;

verus! {

broadcast use vstd::std_specs::hash::group_hash_axioms;

/// The address of a host. A version 4 address and a version 6 address are never equal.
#[derive(Clone, Copy, Debug, PartialEq, Eq, Structural)]
pub enum IpAddr {
    V4(u32),
    V6(u128),
}

/// The version 4 address that is written `a.b.c.d`.
pub fn ipv4(a: u8, b: u8, c: u8, d: u8) -> (r: IpAddr)
    ensures
        r == IpAddr::V4((a * 0x100_0000 + b * 0x1_0000 + c * 0x100 + d) as u32),
{
    IpAddr::V4(a as u32 * 0x100_0000 + b as u32 * 0x1_0000 + c as u32 * 0x100 + d as u32)
}

/// The address that `text` is written for, as the standard library reads it; `None` where it
/// is none.
pub uninterp spec fn address_of(text: Seq<char>) -> Option<IpAddr>;

/// Calls `str::parse` for a `core::net::IpAddr`, and hands the address on as a number. What
/// is claimed of it is that the result depends on the text alone; how addresses are written
/// is not restated here.
#[verifier::external_body]
pub(crate) fn parse_address(text: &str) -> (r: Option<IpAddr>)
    ensures
        r == address_of(text@),
{
    match text.parse::<core::net::IpAddr>() {
        Ok(core::net::IpAddr::V4(address)) => Some(IpAddr::V4(u32::from(address))),
        Ok(core::net::IpAddr::V6(address)) => Some(IpAddr::V6(u128::from(address))),
        Err(_) => None,
    }
}

/// At most one value for each address.
pub struct AddrMap<V> {
    v4: HashMap<u32, V>,
    v6: HashMap<u128, V>,
}

impl<V> View for AddrMap<V> {
    type V = Map<IpAddr, V>;

    closed spec fn view(&self) -> Map<IpAddr, V> {
        Map::new(
            |a: IpAddr|
                match a {
                    IpAddr::V4(x) => self.v4@.contains_key(x),
                    IpAddr::V6(x) => self.v6@.contains_key(x),
                },
            |a: IpAddr|
                match a {
                    IpAddr::V4(x) => self.v4@[x],
                    IpAddr::V6(x) => self.v6@[x],
                },
        )
    }
}

impl<V> AddrMap<V> {
    /// A map that holds nothing.
    pub fn new() -> (r: Self)
        ensures
            r@ == Map::<IpAddr, V>::empty(),
    {
        let r = AddrMap { v4: HashMap::new(), v6: HashMap::new() };
        assert(r@ =~= Map::<IpAddr, V>::empty());
        r
    }

    /// What is kept for `address`.
    pub fn get(&self, address: IpAddr) -> (r: Option<&V>)
        ensures
            match r {
                Some(v) => self@.contains_key(address) && *v == self@[address],
                None => !self@.contains_key(address),
            },
    {
        match address {
            IpAddr::V4(x) => self.v4.get(&x),
            IpAddr::V6(x) => self.v6.get(&x),
        }
    }

    /// Whether something is kept for `address`.
    pub fn contains_key(&self, address: IpAddr) -> (r: bool)
        ensures
            r == self@.contains_key(address),
    {
        self.get(address).is_some()
    }

    /// Keeps `value` for `address`, in place of what was kept before.
    pub fn insert(&mut self, address: IpAddr, value: V)
        ensures
            final(self)@ == old(self)@.insert(address, value),
    {
        match address {
            IpAddr::V4(x) => {
                self.v4.insert(x, value);
            },
            IpAddr::V6(x) => {
                self.v6.insert(x, value);
            },
        }
        assert(self@ =~= old(self)@.insert(address, value));
    }

    /// Keeps nothing for `address` any more.
    pub fn remove(&mut self, address: IpAddr)
        ensures
            final(self)@ == old(self)@.remove(address),
    {
        match address {
            IpAddr::V4(x) => {
                self.v4.remove(&x);
            },
            IpAddr::V6(x) => {
                self.v6.remove(&x);
            },
        }
        assert(self@ =~= old(self)@.remove(address));
    }
}

/// Whether `address` is among `addresses`.
pub fn contains(addresses: &Vec<IpAddr>, address: IpAddr) -> (r: bool)
    ensures
        r == addresses@.contains(address),
{
    let mut i: usize = 0;
    while i < addresses.len()
        invariant
            i <= addresses.len(),
            forall|j: int| 0 <= j < i ==> addresses@[j] != address,
        decreases addresses.len() - i,
    {
        if addresses[i] == address {
            return true;
        }
        i = i + 1;
    }
    false
}

} // verus!
