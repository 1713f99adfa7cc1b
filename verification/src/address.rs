//! Socket addresses.

use vstd::prelude::*;

verus! {

/// The host part of a socket address.
#[derive(Clone, Copy, Debug, PartialEq, Eq, Structural)]
pub enum IpAddr {
    /// The 32 bits of an IPv4 address.
    V4(u32),
    /// The 128 bits of an IPv6 address.
    V6(u128),
}

/// The address of a UDP socket.
#[derive(Clone, Copy, Debug, PartialEq, Eq, Structural)]
pub struct SocketAddr {
    pub ip: IpAddr,
    pub port: u16,
}

impl SocketAddr {
    /// The address of a port on a host.
    pub fn new(ip: IpAddr, port: u16) -> (r: SocketAddr)
        ensures
            r == (SocketAddr { ip, port }),
    {
        SocketAddr { ip, port }
    }
}

} // verus!
