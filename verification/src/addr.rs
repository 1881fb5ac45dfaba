//! Internet addresses, as plain values.

use vstd::prelude::*;

verus! {

/// An IP address.
#[derive(Debug, Clone, Copy, PartialEq, Eq)]
pub enum IpAddress {
    V4([u8; 4]),
    V6([u8; 16]),
}

/// An IP address with a port. IPv6 addresses carry their flow label and scope.
#[derive(Debug, Clone, Copy, PartialEq, Eq)]
pub enum SocketAddress {
    V4 { ip: [u8; 4], port: u16 },
    V6 { ip: [u8; 16], port: u16, flowinfo: u32, scope_id: u32 },
}

/// The address of the port `port` at `ip`, without a flow label and in no particular scope.
pub open spec fn socket_address(ip: IpAddress, port: u16) -> SocketAddress {
    match ip {
        IpAddress::V4(ip) => SocketAddress::V4 { ip, port },
        IpAddress::V6(ip) => SocketAddress::V6 { ip, port, flowinfo: 0, scope_id: 0 },
    }
}

impl SocketAddress {
    /// The address of the port `port` at `ip`.
    pub fn new(ip: IpAddress, port: u16) -> (a: SocketAddress)
        ensures
            a == socket_address(ip, port),
    {
        match ip {
            IpAddress::V4(ip) => SocketAddress::V4 { ip, port },
            IpAddress::V6(ip) => SocketAddress::V6 { ip, port, flowinfo: 0, scope_id: 0 },
        }
    }

    /// Whether this is an IPv6 address.
    pub fn is_ipv6(&self) -> (b: bool)
        ensures
            b == (self is V6),
    {
        match self {
            SocketAddress::V4 { .. } => false,
            SocketAddress::V6 { .. } => true,
        }
    }
}

} // verus!
