//! Which socket addresses a node accepts: all of them, or only globally
//! routable ones.

use vstd::prelude::*;

verus! {

/// An IP address: four octets, or eight 16-bit segments.
#[derive(Clone, Copy, PartialEq, Eq, Debug)]
pub enum IpAddr {
    V4([u8; 4]),
    V6([u16; 8]),
}

/// An IP address with a port.
#[derive(Clone, Copy, PartialEq, Eq, Debug)]
pub struct SocketAddr {
    pub ip: IpAddr,
    pub port: u16,
}

impl SocketAddr {
    /// Whether two addresses are the same address.
    pub fn same_as(&self, other: &SocketAddr) -> (r: bool)
        ensures
            r == (*self == *other),
    {
        if self.port != other.port {
            return false;
        }
        match (self.ip, other.ip) {
            (IpAddr::V4(a), IpAddr::V4(b)) => {
                let r = a[0] == b[0] && a[1] == b[1] && a[2] == b[2] && a[3] == b[3];
                proof {
                    if r {
                        assert(a =~= b);
                    }
                }
                r
            },
            (IpAddr::V6(a), IpAddr::V6(b)) => {
                let r = a[0] == b[0] && a[1] == b[1] && a[2] == b[2] && a[3] == b[3] && a[4] == b[4]
                    && a[5] == b[5] && a[6] == b[6] && a[7] == b[7];
                proof {
                    if r {
                        assert(a =~= b);
                    }
                }
                r
            },
            _ => false,
        }
    }
}

/// Private IPv4 ranges: 10.0.0.0/8, 172.16.0.0/12 and 192.168.0.0/16.
pub open spec fn is_private_v4(o: Seq<u8>) -> bool {
    ||| o[0] == 10
    ||| (o[0] == 172 && 16 <= o[1] <= 31)
    ||| (o[0] == 192 && o[1] == 168)
}

/// The IPv4 loopback range 127.0.0.0/8.
pub open spec fn is_loopback_v4(o: Seq<u8>) -> bool {
    o[0] == 127
}

/// The IPv6 loopback address `::1`.
pub open spec fn is_loopback_v6(s: Seq<u16>) -> bool {
    &&& forall|i: int| 0 <= i < 7 ==> s[i] == 0
    &&& s[7] == 1
}

/// Whether an address counts as globally routable.
pub open spec fn is_global_ip(ip: IpAddr) -> bool {
    match ip {
        IpAddr::V4(o) => !(is_private_v4(o@) || is_loopback_v4(o@)),
        IpAddr::V6(s) => !is_loopback_v6(s@),
    }
}

/// The address space in which a node listens.
#[derive(Clone, Copy, PartialEq, Eq, Debug)]
pub enum SocketAddrSpace {
    /// Any address, private ones included.
    Unspecified,
    /// Globally routable addresses only.
    Global,
}

impl SocketAddrSpace {
    /// `Unspecified` when private addresses are allowed, else `Global`.
    pub fn new(allow_private_addr: bool) -> (r: Self)
        ensures
            r == (if allow_private_addr { SocketAddrSpace::Unspecified } else { SocketAddrSpace::Global }),
    {
        if allow_private_addr {
            SocketAddrSpace::Unspecified
        } else {
            SocketAddrSpace::Global
        }
    }

    /// Whether `addr` is acceptable in this address space: in `Unspecified`
    /// every address is; in `Global`, those that are neither private nor
    /// loopback.
    pub fn check(&self, addr: &SocketAddr) -> (r: bool)
        ensures
            r == (*self == SocketAddrSpace::Unspecified || is_global_ip(addr.ip)),
    {
        if let SocketAddrSpace::Unspecified = self {
            return true;
        }
        match addr.ip {
            IpAddr::V4(o) => {
                let private = o[0] == 10 || (o[0] == 172 && 16 <= o[1] && o[1] <= 31) || (o[0] == 192
                    && o[1] == 168);
                let loopback = o[0] == 127;
                !(private || loopback)
            },
            IpAddr::V6(s) => {
                let loopback = s[0] == 0 && s[1] == 0 && s[2] == 0 && s[3] == 0 && s[4] == 0 && s[5] == 0
                    && s[6] == 0 && s[7] == 1;
                assert(loopback == is_loopback_v6(s@)) by {
                    if loopback {
                        assert forall|i: int| 0 <= i < 7 implies s@[i] == 0 by {
                            assert(s@[i] == s[i]);
                        }
                    }
                }
                !loopback
            },
        }
    }
}

} // verus!
