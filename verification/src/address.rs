//! Addresses as plain numbers, and the multicast groups of a listener.
use vstd::prelude::*;

verus! {

/// An IP address, as the number that its bytes spell in network order.
#[derive(Debug, Clone, Copy, PartialEq, Eq, PartialOrd, Ord, Hash, Structural)]
pub enum IpAddress {
    V4(u32),
    V6(u128),
}

/// Where a datagram comes from.
#[derive(Debug, Clone, Copy, PartialEq, Eq, Hash, Structural)]
pub enum Endpoint {
    V4 { ip: u32, port: u16 },
    V6 { ip: u128, port: u16, flowinfo: u32, scope_id: u32 },
}

/// An endpoint spelled out in numbers: the address family, the address, the port, the flow and the
/// scope.
pub type EndpointKey = (u8, u128, u16, u32, u32);

/// What a socket has to do to join or leave a group.
#[derive(Debug, Clone, Copy, PartialEq, Eq, Structural)]
pub enum GroupChange {
    /// An IPv4 group, on the interface with this address.
    V4 { group: u32, interface: u32 },
    /// An IPv6 group, on any interface.
    V6 { group: u128 },
}

/// The IPv4 group of all CoAP nodes, 224.0.1.187.
pub const ALL_COAP_V4: u32 = 0xE000_01BB;

/// The IPv6 group of all CoAP nodes in the reserved scope, ff00::fd.
pub const ALL_COAP_V6: u128 = 0xFF00_0000_0000_0000_0000_0000_0000_00FD;

/// The place of the scope in an IPv6 multicast address: 2^112.
pub const SCOPE_UNIT: u128 = 0x1_0000_0000_0000_0000_0000_0000_0000;

impl IpAddress {
    /// Whether the address is one of a group: 224.0.0.0/4 or ff00::/8.
    pub open spec fn spec_is_multicast(self) -> bool {
        match self {
            IpAddress::V4(ip) => 0xE000_0000 <= ip <= 0xEFFF_FFFF,
            IpAddress::V6(ip) => ip >= 0xFF00_0000_0000_0000_0000_0000_0000_0000,
        }
    }

    /// Whether the address is one of a group.
    pub fn is_multicast(&self) -> (multicast: bool)
        ensures
            multicast == self.spec_is_multicast(),
    {
        match self {
            IpAddress::V4(ip) => 0xE000_0000 <= *ip && *ip <= 0xEFFF_FFFF,
            IpAddress::V6(ip) => *ip >= 0xFF00_0000_0000_0000_0000_0000_0000_0000,
        }
    }
}

impl Endpoint {
    /// The numbers that spell the endpoint out.
    pub open spec fn spec_key(self) -> EndpointKey {
        match self {
            Endpoint::V4 { ip, port } => (4u8, ip as u128, port, 0u32, 0u32),
            Endpoint::V6 { ip, port, flowinfo, scope_id } => (6u8, ip, port, flowinfo, scope_id),
        }
    }

    /// The numbers that spell the endpoint out.
    pub fn key(&self) -> (key: EndpointKey)
        ensures
            key == self.spec_key(),
    {
        match *self {
            Endpoint::V4 { ip, port } => (4u8, ip as u128, port, 0u32, 0u32),
            Endpoint::V6 { ip, port, flowinfo, scope_id } => (6u8, ip, port, flowinfo, scope_id),
        }
    }
}

/// No two endpoints are spelled out by the same numbers.
pub proof fn law_key_tells_endpoints_apart(one: Endpoint, other: Endpoint)
    ensures
        one.spec_key() == other.spec_key() <==> one == other,
{
}

/// What a socket bound to `local` does for a group: it takes part in groups of its own address
/// family only.
pub open spec fn spec_group_change(local: Endpoint, group: IpAddress) -> Option<GroupChange> {
    match (local, group) {
        (Endpoint::V4 { ip, .. }, IpAddress::V4(group)) => Some(
            GroupChange::V4 { group, interface: ip },
        ),
        (Endpoint::V6 { .. }, IpAddress::V6(group)) => Some(GroupChange::V6 { group }),
        _ => None,
    }
}

/// What a socket bound to `local` does to join or leave a group.
pub fn group_change(local: Endpoint, group: IpAddress) -> (change: Option<GroupChange>)
    requires
        group.spec_is_multicast(),
    ensures
        change == spec_group_change(local, group),
{
    match local {
        Endpoint::V4 { ip, .. } => match group {
            IpAddress::V4(group) => Some(GroupChange::V4 { group, interface: ip }),
            IpAddress::V6(_) => None,
        },
        Endpoint::V6 { .. } => match group {
            IpAddress::V4(_) => None,
            IpAddress::V6(group) => Some(GroupChange::V6 { group }),
        },
    }
}

/// The group of all CoAP nodes in the family of `local`; for IPv6 in the scope `segment`.
pub open spec fn spec_all_coap_group(local: Endpoint, segment: u8) -> IpAddress {
    match local {
        Endpoint::V4 { .. } => IpAddress::V4(ALL_COAP_V4),
        Endpoint::V6 { .. } => IpAddress::V6((ALL_COAP_V6 + segment * SCOPE_UNIT) as u128),
    }
}

/// The group of all CoAP nodes: 224.0.1.187, or ff0?::fd with `segment` as the scope.
pub fn all_coap_group(local: Endpoint, segment: u8) -> (group: IpAddress)
    requires
        segment <= 0xf,
    ensures
        group == spec_all_coap_group(local, segment),
        group.spec_is_multicast(),
        spec_group_change(local, group) is Some,
{
    match local {
        Endpoint::V4 { .. } => IpAddress::V4(ALL_COAP_V4),
        Endpoint::V6 { .. } => IpAddress::V6(ALL_COAP_V6 + segment as u128 * SCOPE_UNIT),
    }
}

/// The groups that a listener has joined, in the order in which it joined them.
pub struct MulticastGroups {
    addresses: Vec<IpAddress>,
}

/// Where an address first stands in a list.
pub open spec fn first_index(addresses: Seq<IpAddress>, address: IpAddress) -> int
    decreases addresses.len(),
{
    if addresses.len() == 0 || addresses[0] == address {
        0
    } else {
        1 + first_index(addresses.skip(1), address)
    }
}

/// The first index is that of the address, and no earlier one is.
pub proof fn lemma_first_index(addresses: Seq<IpAddress>, address: IpAddress, i: int)
    requires
        0 <= i < addresses.len(),
        addresses[i] == address,
        forall|k: int| 0 <= k < i ==> addresses[k] != address,
    ensures
        first_index(addresses, address) == i,
    decreases addresses.len(),
{
    if i > 0 {
        let rest = addresses.skip(1);
        assert(rest[i - 1] == address);
        assert forall|k: int| 0 <= k < i - 1 implies rest[k] != address by {
            assert(rest[k] == addresses[k + 1]);
        }
        lemma_first_index(rest, address, i - 1);
    }
}

/// A group that was joined anew and is left again leaves the list as it was.
pub proof fn law_leave_undoes_join(addresses: Seq<IpAddress>, address: IpAddress)
    requires
        !addresses.contains(address),
    ensures
        addresses.push(address).remove(first_index(addresses.push(address), address)) == addresses,
{
    let joined = addresses.push(address);
    assert forall|k: int| 0 <= k < addresses.len() implies joined[k] != address by {
        assert(addresses.contains(addresses[k]));
    }
    lemma_first_index(joined, address, addresses.len() as int);
    assert(joined.remove(addresses.len() as int) =~= addresses);
}

impl View for MulticastGroups {
    type V = Seq<IpAddress>;

    closed spec fn view(&self) -> Seq<IpAddress> {
        self.addresses@
    }
}

impl MulticastGroups {
    /// No groups.
    pub fn new() -> (groups: MulticastGroups)
        ensures
            groups@ == Seq::<IpAddress>::empty(),
    {
        MulticastGroups { addresses: Vec::new() }
    }

    /// Notes that a group was joined.
    pub fn joined(&mut self, address: IpAddress)
        ensures
            final(self)@ == old(self)@.push(address),
    {
        self.addresses.push(address);
    }

    /// Notes that a group was left: its first entry goes. Says whether there was one.
    pub fn left(&mut self, address: IpAddress) -> (known: bool)
        ensures
            known == old(self)@.contains(address),
            final(self)@ == (if known {
                old(self)@.remove(first_index(old(self)@, address))
            } else {
                old(self)@
            }),
    {
        let mut i: usize = 0;
        while i < self.addresses.len()
            invariant
                i <= self.addresses@.len(),
                self.addresses@ == old(self)@,
                forall|k: int| 0 <= k < i ==> self.addresses@[k] != address,
            decreases self.addresses@.len() - i,
        {
            if self.addresses[i] == address {
                proof {
                    lemma_first_index(self.addresses@, address, i as int);
                    assert(old(self)@.contains(address));
                }
                self.addresses.remove(i);
                return true;
            }
            i += 1;
        }
        false
    }
}

} // verus!
