//! Addresses of listeners and upstream servers.

use vstd::prelude::*;

verus! {

/// An IP address, as the number that its octets write.
#[derive(Clone, Copy, Debug, PartialEq, Eq, Structural)]
pub enum IpAddr {
    V4(u32),
    V6(u128),
}

/// An IP address and a port. Flow and scope are 0 for an IPv4 address.
#[derive(Clone, Copy, Debug, PartialEq, Eq, Structural)]
pub struct SocketAddr {
    pub ip: IpAddr,
    pub port: u16,
    pub flowinfo: u32,
    pub scope_id: u32,
}

impl SocketAddr {
    /// The address with this IP address and port, and no flow or scope.
    pub open spec fn spec_new(ip: IpAddr, port: u16) -> SocketAddr {
        SocketAddr { ip, port, flowinfo: 0, scope_id: 0 }
    }

    /// The address with this IP address and port, and no flow or scope.
    pub fn new(ip: IpAddr, port: u16) -> (r: SocketAddr)
        ensures
            r == SocketAddr::spec_new(ip, port),
    {
        SocketAddr { ip, port, flowinfo: 0, scope_id: 0 }
    }

    /// The address to send datagrams to `self` from: any of the same family, on any port.
    pub open spec fn unspecified(self) -> SocketAddr {
        match self.ip {
            IpAddr::V4(_) => SocketAddr::spec_new(IpAddr::V4(0), 0),
            IpAddr::V6(_) => SocketAddr::spec_new(IpAddr::V6(0), 0),
        }
    }

    /// The address to send datagrams to `self` from.
    pub fn local(&self) -> (r: SocketAddr)
        ensures
            r == self.unspecified(),
    {
        match self.ip {
            IpAddr::V4(_) => SocketAddr::new(IpAddr::V4(0), 0),
            IpAddr::V6(_) => SocketAddr::new(IpAddr::V6(0), 0),
        }
    }
}

/// An address is made of the IP address and the port that it is given, and nothing else. Datagrams
/// to a server are sent from any address of the same family, on any port.
pub proof fn law_addresses_keep_their_family(ip: IpAddr, port: u16, server: SocketAddr)
    ensures
        SocketAddr::spec_new(ip, port).ip == ip,
        SocketAddr::spec_new(ip, port).port == port,
        SocketAddr::spec_new(ip, port).flowinfo == 0,
        SocketAddr::spec_new(ip, port).scope_id == 0,
        server.ip is V4 ==> server.unspecified().ip == IpAddr::V4(0),
        server.ip is V6 ==> server.unspecified().ip == IpAddr::V6(0),
        server.unspecified().port == 0,
        server.unspecified().flowinfo == 0,
        server.unspecified().scope_id == 0,
{
}

} // verus!
