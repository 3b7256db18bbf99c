use vstd::prelude::*;

verus! {

/// A four-octet IPv4 address.
#[derive(Debug, PartialEq, Eq, Clone, Copy, Structural)]
pub struct Ipv4Address(pub u8, pub u8, pub u8, pub u8);

impl Ipv4Address {
    /// The address as it stands in a packet.
    pub open spec fn octets(self) -> Seq<u8> {
        seq![self.0, self.1, self.2, self.3]
    }
}

/// An internetworking address.
#[derive(Debug, PartialEq, Eq, Clone, Copy, Structural)]
pub enum IpAddress {
    /// A placeholder for an address that is not assigned yet.
    Unspecified,
    /// An IPv4 address.
    Ipv4(Ipv4Address),
}

impl IpAddress {
    /// Whether no particular host is meant.
    pub open spec fn unspecified(self) -> bool {
        match self {
            IpAddress::Unspecified => true,
            IpAddress::Ipv4(addr) => addr == Ipv4Address(0, 0, 0, 0),
        }
    }

    /// Create an IPv4 address from its octets.
    pub fn v4(a0: u8, a1: u8, a2: u8, a3: u8) -> (addr: IpAddress)
        ensures
            addr == IpAddress::Ipv4(Ipv4Address(a0, a1, a2, a3)),
    {
        IpAddress::Ipv4(Ipv4Address(a0, a1, a2, a3))
    }

    /// Query whether no particular host is meant.
    pub fn is_unspecified(&self) -> (result: bool)
        ensures
            result == self.unspecified(),
    {
        match *self {
            IpAddress::Unspecified => true,
            IpAddress::Ipv4(addr) => addr == Ipv4Address(0, 0, 0, 0),
        }
    }
}

impl Default for IpAddress {
    fn default() -> (addr: IpAddress)
        ensures
            addr == IpAddress::Unspecified,
    {
        IpAddress::Unspecified
    }
}

/// An address and a port on it.
#[derive(Debug, PartialEq, Eq, Clone, Copy, Structural)]
pub struct IpEndpoint {
    pub addr: IpAddress,
    pub port: u16,
}

impl IpEndpoint {
    /// The endpoint that stands for none.
    pub open spec fn nowhere() -> IpEndpoint {
        IpEndpoint { addr: IpAddress::Unspecified, port: 0 }
    }

    /// Create an endpoint from an address and a port.
    pub fn new(addr: IpAddress, port: u16) -> (endpoint: IpEndpoint)
        ensures
            endpoint == (IpEndpoint { addr, port }),
    {
        IpEndpoint { addr, port }
    }
}

impl Default for IpEndpoint {
    fn default() -> (endpoint: IpEndpoint)
        ensures
            endpoint == IpEndpoint::nowhere(),
    {
        IpEndpoint { addr: IpAddress::Unspecified, port: 0 }
    }
}

/// What an IP packet carries.
#[derive(Debug, PartialEq, Eq, Clone, Copy, Structural)]
pub enum IpProtocol {
    Icmp,
    Tcp,
    Udp,
    Unknown(u8),
}

/// The part of an IP packet that a socket needs to know.
#[derive(Debug, PartialEq, Eq, Clone, Copy, Structural)]
pub enum IpRepr {
    /// A packet of no particular version of IP.
    Unspecified { src_addr: IpAddress, dst_addr: IpAddress, protocol: IpProtocol },
}

impl IpRepr {
    pub open spec fn src(self) -> IpAddress {
        self->src_addr
    }

    pub open spec fn dst(self) -> IpAddress {
        self->dst_addr
    }

    pub open spec fn carries(self) -> IpProtocol {
        self->protocol
    }

    /// Return the source address.
    pub fn src_addr(&self) -> (addr: IpAddress)
        ensures
            addr == self.src(),
    {
        match *self {
            IpRepr::Unspecified { src_addr, .. } => src_addr,
        }
    }

    /// Return the destination address.
    pub fn dst_addr(&self) -> (addr: IpAddress)
        ensures
            addr == self.dst(),
    {
        match *self {
            IpRepr::Unspecified { dst_addr, .. } => dst_addr,
        }
    }

    /// Return the protocol.
    pub fn protocol(&self) -> (protocol: IpProtocol)
        ensures
            protocol == self.carries(),
    {
        match *self {
            IpRepr::Unspecified { protocol, .. } => protocol,
        }
    }
}

} // verus!
