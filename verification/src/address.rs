//! Network addresses as plain values: the octets, port and IPv6 fields that
//! the service compares and writes into answers.

use vstd::prelude::*;

verus! {

/// An IPv4 or IPv6 address, by its octets in network order.
#[derive(Clone, Copy, Debug)]
pub enum IpAddress {
    V4([u8; 4]),
    V6([u8; 16]),
}

/// A socket address: an address and a port, with the flow information and
/// scope identifier that an IPv6 socket address also carries.
#[derive(Clone, Copy, Debug)]
pub enum SocketAddress {
    V4 { ip: [u8; 4], port: u16 },
    V6 { ip: [u8; 16], port: u16, flowinfo: u32, scope_id: u32 },
}

impl IpAddress {
    /// The address's octets in network order.
    pub open spec fn octets(self) -> Seq<u8> {
        match self {
            IpAddress::V4(octets) => octets@,
            IpAddress::V6(octets) => octets@,
        }
    }

    /// Whether two addresses are the same: same family and same octets.
    pub fn same(&self, other: &IpAddress) -> (result: bool)
        ensures
            result == (*self == *other),
    {
        match (self, other) {
            (IpAddress::V4(a), IpAddress::V4(b)) => same_octets4(a, b),
            (IpAddress::V6(a), IpAddress::V6(b)) => same_octets16(a, b),
            _ => false,
        }
    }
}

impl SocketAddress {
    /// Whether two socket addresses are the same in every field.
    pub fn same(&self, other: &SocketAddress) -> (result: bool)
        ensures
            result == (*self == *other),
    {
        match (self, other) {
            (SocketAddress::V4 { ip: a, port: p }, SocketAddress::V4 { ip: b, port: q }) => {
                *p == *q && same_octets4(a, b)
            },
            (
                SocketAddress::V6 { ip: a, port: p, flowinfo: f, scope_id: s },
                SocketAddress::V6 { ip: b, port: q, flowinfo: g, scope_id: t },
            ) => *p == *q && *f == *g && *s == *t && same_octets16(a, b),
            _ => false,
        }
    }
}

fn same_octets4(a: &[u8; 4], b: &[u8; 4]) -> (result: bool)
    ensures
        result == (*a == *b),
{
    let mut i: usize = 0;
    while i < 4
        invariant
            i <= 4,
            forall|j: int| 0 <= j < i ==> a@[j] == b@[j],
        decreases 4 - i,
    {
        if a[i] != b[i] {
            return false;
        }
        i = i + 1;
    }
    proof {
        assert(a@ =~= b@);
        vstd::array::axiom_array_ext_equal(*a, *b);
    }
    true
}

fn same_octets16(a: &[u8; 16], b: &[u8; 16]) -> (result: bool)
    ensures
        result == (*a == *b),
{
    let mut i: usize = 0;
    while i < 16
        invariant
            i <= 16,
            forall|j: int| 0 <= j < i ==> a@[j] == b@[j],
        decreases 16 - i,
    {
        if a[i] != b[i] {
            return false;
        }
        i = i + 1;
    }
    proof {
        assert(a@ =~= b@);
        vstd::array::axiom_array_ext_equal(*a, *b);
    }
    true
}

} // verus!
