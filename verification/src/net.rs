//! Network addresses as plain numbers, and their text forms.
use vstd::prelude::*;

verus! {

/// An IP address as the number that its octets spell, most significant first.
#[derive(Clone, Copy, Debug, PartialEq, Eq, Structural)]
pub enum IpAddr {
    V4(u32),
    V6(u128),
}

/// An IP address with a port; for IPv6 also the flow information and the scope.
#[allow(inconsistent_fields)]
#[derive(Clone, Copy, Debug, PartialEq, Eq, Structural)]
pub enum SocketAddr {
    V4 { ip: u32, port: u16 },
    V6 { ip: u128, port: u16, flowinfo: u32, scope_id: u32 },
}

impl IpAddr {
    /// Whether this is the wildcard address of its family.
    pub open spec fn unspecified(self) -> bool {
        self == IpAddr::V4(0) || self == IpAddr::V6(0)
    }

    /// Whether this is the wildcard address, `0.0.0.0` or `::`.
    pub fn is_unspecified(&self) -> (r: bool)
        ensures
            r == self.unspecified(),
    {
        match *self {
            IpAddr::V4(n) => n == 0,
            IpAddr::V6(n) => n == 0,
        }
    }
}

impl SocketAddr {
    /// The address part.
    pub open spec fn spec_ip(self) -> IpAddr {
        match self {
            SocketAddr::V4 { ip, .. } => IpAddr::V4(ip),
            SocketAddr::V6 { ip, .. } => IpAddr::V6(ip),
        }
    }

    /// `ip` with `port`, without flow information or scope.
    pub open spec fn at(ip: IpAddr, port: u16) -> SocketAddr {
        match ip {
            IpAddr::V4(ip) => SocketAddr::V4 { ip, port },
            IpAddr::V6(ip) => SocketAddr::V6 { ip, port, flowinfo: 0, scope_id: 0 },
        }
    }

    pub fn new(ip: IpAddr, port: u16) -> (addr: SocketAddr)
        ensures
            addr == SocketAddr::at(ip, port),
    {
        match ip {
            IpAddr::V4(ip) => SocketAddr::V4 { ip, port },
            IpAddr::V6(ip) => SocketAddr::V6 { ip, port, flowinfo: 0, scope_id: 0 },
        }
    }

    pub fn ip(&self) -> (ip: IpAddr)
        ensures
            ip == self.spec_ip(),
    {
        match *self {
            SocketAddr::V4 { ip, .. } => IpAddr::V4(ip),
            SocketAddr::V6 { ip, .. } => IpAddr::V6(ip),
        }
    }
}

// --- IPv4-mapped addresses ---

/// The IPv6 address `::ffff:a.b.c.d` that stands for the IPv4 address `v4`.
pub open spec fn mapped(v4: u32) -> u128 {
    (0xffff_0000_0000 + v4) as u128
}

/// `ip` with an IPv4-mapped IPv6 address replaced by the IPv4 address it maps.
pub open spec fn peer_ip(ip: IpAddr) -> IpAddr {
    match ip {
        IpAddr::V6(v6) if 0xffff_0000_0000 <= v6 <= 0xffff_ffff_ffff => IpAddr::V4(
            (v6 - 0xffff_0000_0000) as u32,
        ),
        _ => ip,
    }
}

/// Turns `::ffff:a.b.c.d` back into `a.b.c.d`, so that IPv4 rules hold for the
/// IPv4 clients of a dual-stack listener.
pub fn normalize_peer_ip(ip: IpAddr) -> (out: IpAddr)
    ensures
        out == peer_ip(ip),
{
    match ip {
        IpAddr::V6(v6) => {
            if 0xffff_0000_0000 <= v6 && v6 <= 0xffff_ffff_ffff {
                IpAddr::V4((v6 - 0xffff_0000_0000) as u32)
            } else {
                ip
            }
        },
        IpAddr::V4(_) => ip,
    }
}

/// A mapped address is the same peer as the IPv4 address that it maps.
pub proof fn law_mapped_peer(v4: u32)
    ensures
        peer_ip(IpAddr::V6(mapped(v4))) == IpAddr::V4(v4),
        peer_ip(IpAddr::V4(v4)) == IpAddr::V4(v4),
{
}

// --- Text forms ---

/// What the standard library reads from `text` as an IPv4 or IPv6 address.
pub uninterp spec fn ip_text(text: Seq<char>) -> Option<IpAddr>;

/// What the standard library reads from `text` as an IPv6 address.
pub uninterp spec fn ipv6_text(text: Seq<char>) -> Option<u128>;

/// What the standard library reads from `text` as an address with a port.
pub uninterp spec fn socket_addr_text(text: Seq<char>) -> Option<SocketAddr>;

/// How the standard library writes `addr`.
pub uninterp spec fn socket_addr_display(addr: SocketAddr) -> Seq<char>;

/// `core::net::IpAddr`'s `FromStr`: the address that `text` denotes, or `None`
/// where it denotes none. Which one is named, not stated: it depends on `text`
/// alone.
#[verifier::external_body]
pub(crate) fn parse_ip(text: &str) -> (ip: Option<IpAddr>)
    ensures
        ip == ip_text(text@),
{
    match text.parse::<core::net::IpAddr>() {
        Ok(core::net::IpAddr::V4(v4)) => Some(IpAddr::V4(u32::from(v4))),
        Ok(core::net::IpAddr::V6(v6)) => Some(IpAddr::V6(u128::from(v6))),
        Err(_) => None,
    }
}

/// `core::net::Ipv6Addr`'s `FromStr`: the address that `text` denotes, or `None`
/// where it denotes none. Which one is named, not stated: it depends on `text`
/// alone.
#[verifier::external_body]
pub(crate) fn parse_ipv6(text: &str) -> (ip: Option<u128>)
    ensures
        ip == ipv6_text(text@),
{
    match text.parse::<core::net::Ipv6Addr>() {
        Ok(v6) => Some(u128::from(v6)),
        Err(_) => None,
    }
}

/// `core::net::SocketAddr`'s `FromStr`: the address that `text` denotes, or
/// `None` where it denotes none. Which one is named, not stated: it depends on
/// `text` alone.
#[verifier::external_body]
pub(crate) fn parse_socket_addr(text: &str) -> (addr: Option<SocketAddr>)
    ensures
        addr == socket_addr_text(text@),
{
    match text.parse::<core::net::SocketAddr>() {
        Ok(core::net::SocketAddr::V4(a)) => Some(
            SocketAddr::V4 { ip: u32::from(*a.ip()), port: a.port() },
        ),
        Ok(core::net::SocketAddr::V6(a)) => Some(
            SocketAddr::V6 {
                ip: u128::from(*a.ip()),
                port: a.port(),
                flowinfo: a.flowinfo(),
                scope_id: a.scope_id(),
            },
        ),
        Err(_) => None,
    }
}

/// `core::net::SocketAddr`'s `Display`: the text of `addr`. It is named, not
/// stated: it depends on `addr` alone.
#[verifier::external_body]
pub(crate) fn display_socket_addr(addr: SocketAddr) -> (text: String)
    ensures
        text@ == socket_addr_display(addr),
{
    let addr = match addr {
        SocketAddr::V4 { ip, port } => core::net::SocketAddr::V4(
            core::net::SocketAddrV4::new(core::net::Ipv4Addr::from(ip), port),
        ),
        SocketAddr::V6 { ip, port, flowinfo, scope_id } => core::net::SocketAddr::V6(
            core::net::SocketAddrV6::new(core::net::Ipv6Addr::from(ip), port, flowinfo, scope_id),
        ),
    };
    addr.to_string()
}

/// An IPv6 address that maps no IPv4 address is the peer that it is, and so is
/// every IPv4 address.
pub proof fn law_other_peers_stay(ip: IpAddr)
    requires
        ip matches IpAddr::V6(v6) ==> v6 < 0xffff_0000_0000 || v6 > 0xffff_ffff_ffff,
    ensures
        peer_ip(ip) == ip,
{
}

/// An address that maps an IPv4 address is that peer.
pub proof fn law_mapped_range(v6: u128)
    requires
        0xffff_0000_0000 <= v6 <= 0xffff_ffff_ffff,
    ensures
        peer_ip(IpAddr::V6(v6)) matches IpAddr::V4(v4) && v4 + 0xffff_0000_0000 == v6,
{
}

/// An address with a port keeps both, and has neither flow information nor a
/// scope.
pub proof fn law_addr_keeps_its_parts(ip: IpAddr, port: u16)
    ensures
        SocketAddr::at(ip, port).spec_ip() == ip,
        match SocketAddr::at(ip, port) {
            SocketAddr::V4 { ip: n, port: p } => ip == IpAddr::V4(n) && p == port,
            SocketAddr::V6 { ip: n, port: p, flowinfo, scope_id } => ip == IpAddr::V6(n) && p
                == port && flowinfo == 0 && scope_id == 0,
        },
{
}

/// The IP address of a socket address is the one in it.
pub proof fn law_ip_of_addr(v4: u32, v6: u128, port: u16, flowinfo: u32, scope_id: u32)
    ensures
        (SocketAddr::V4 { ip: v4, port }).spec_ip() == IpAddr::V4(v4),
        (SocketAddr::V6 { ip: v6, port, flowinfo, scope_id }).spec_ip() == IpAddr::V6(v6),
        IpAddr::V4(v4).unspecified() <==> v4 == 0,
        IpAddr::V6(v6).unspecified() <==> v6 == 0,
{
}

} // verus!
