//! Internet addresses as keys.

use vstd::prelude::*;

verus! {

/// The address of a client.
#[derive(Debug, Clone, Copy, PartialEq, Eq, Hash, Structural)]
pub enum IpAddress {
    /// An IPv4 address, as the number that its four bytes spell.
    V4(u32),
    /// An IPv6 address, as the number that its sixteen bytes spell.
    V6(u128),
}

impl IpAddress {
    /// The key under which the limiter of the address is kept: the version and the number.
    pub open spec fn spec_key(self) -> (u8, u128) {
        match self {
            IpAddress::V4(bits) => (4, bits as u128),
            IpAddress::V6(bits) => (6, bits),
        }
    }

    /// The key under which the limiter of the address is kept.
    pub fn key(self) -> (r: (u8, u128))
        ensures
            r == self.spec_key(),
    {
        match self {
            IpAddress::V4(bits) => (4, bits as u128),
            IpAddress::V6(bits) => (6, bits),
        }
    }

    /// The IPv4 address with the given bytes.
    pub fn v4(a: u8, b: u8, c: u8, d: u8) -> (r: IpAddress)
        ensures
            r == IpAddress::V4(
                (a * 0x100_0000 + b * 0x1_0000 + c * 0x100 + d) as u32,
            ),
    {
        IpAddress::V4(a as u32 * 0x100_0000 + b as u32 * 0x1_0000 + c as u32 * 0x100 + d as u32)
    }
}

/// Different addresses have different keys: no two clients share a limiter, and an IPv4 address
/// never meets an IPv6 address.
pub proof fn law_keys_are_distinct(a: IpAddress, b: IpAddress)
    requires
        a.spec_key() == b.spec_key(),
    ensures
        a == b,
{
}

/// Two addresses have one key only if they are the same address; the bytes of an IPv4 address, the
/// first one highest, spell its number.
pub proof fn law_addresses_have_their_own_keys(
    x: IpAddress,
    y: IpAddress,
    x_key: (u8, u128),
    y_key: (u8, u128),
    a: u8,
    b: u8,
    c: u8,
    d: u8,
    spelt: IpAddress,
)
    requires
        call_ensures(IpAddress::key, (x,), x_key),
        call_ensures(IpAddress::key, (y,), y_key),
        call_ensures(IpAddress::v4, (a, b, c, d), spelt),
    ensures
        x_key == y_key <==> x == y,
        spelt matches IpAddress::V4(bits) && bits == ((a * 256 + b) * 256 + c) * 256 + d,
{
}

} // verus!
