//! Where a connection goes and which local address it leaves from.
use crate::dns::dns_outcome;
use crate::dns::label_text;
use crate::dns::law_rules_decide_who_answers;
use crate::dns::name_of;
use crate::dns::query;
use crate::dns::query_parts;
use crate::domain::DomainRules;
use crate::domain::law_empty_name_is_never_picked;
use crate::domain::law_normal_name_is_compared_as_it_stands;
use crate::domain::lemma_lower_twice;
use crate::domain::lemma_spelled;
use crate::domain::rules_of_lines;
use crate::domain::RulesView;
use crate::domain::spelled;
use crate::error::bad_input;
use crate::error::error;
use crate::error::Error;
use crate::error::ErrorKind;
use crate::error::failure;
use crate::error::Failure;
use crate::error::invalid_input;
use crate::net::IpAddr;
use crate::net::SocketAddr;
use crate::text::chars_of;
use crate::text::is_white_space;
use crate::text::lower;
use crate::text::lower_chars;
use crate::text::spells;
use crate::tls::extract_sni_from_client_hello;
use crate::tls::sni;
use vstd::prelude::*;

verus! {

/// The port that the server name proxy listens on and connects to.
pub const HTTPS_PORT: u16 = 443;

/// A service: the SOCKS5 proxy, or DNS with the server name proxy.
#[derive(Clone, Copy, Debug, PartialEq, Eq, Structural)]
pub enum Mode {
    Proxy,
    Dns,
}

/// The service that `value` names.
pub open spec fn mode_text(value: Seq<char>) -> Result<Mode, Failure> {
    if lower(value) == "proxy"@ {
        Ok(Mode::Proxy)
    } else if lower(value) == "dns"@ {
        Ok(Mode::Dns)
    } else {
        Err(bad_input("-m/--mode must be proxy or dns"@))
    }
}

impl Mode {
    /// Reads the name of a service.
    pub fn parse(value: &str) -> (r: Result<Self, Error>)
        ensures
            match r {
                Ok(mode) => mode_text(value@) == Ok::<Mode, Failure>(mode),
                Err(e) => mode_text(value@) == Err::<Mode, Failure>(e@),
            },
    {
        let chars = chars_of(value);
        let name = lower_chars(chars.as_slice());
        if spells(name.as_slice(), "proxy") {
            Ok(Mode::Proxy)
        } else if spells(name.as_slice(), "dns") {
            Ok(Mode::Dns)
        } else {
            Err(invalid_input("-m/--mode must be proxy or dns"))
        }
    }
}

/// Where a client wants to be connected to.
#[derive(Debug)]
pub enum TargetAddr {
    Ip(SocketAddr),
    Domain(String, u16),
}

/// The mathematical view of [`TargetAddr`].
pub enum Target {
    Ip(SocketAddr),
    Domain(Seq<char>, u16),
}

impl View for TargetAddr {
    type V = Target;

    open spec fn view(&self) -> Target {
        match self {
            TargetAddr::Ip(addr) => Target::Ip(*addr),
            TargetAddr::Domain(name, port) => Target::Domain(name@, *port),
        }
    }
}

// --- Through the pool or not ---

/// How a connection leaves.
#[derive(Clone, Copy, Debug, PartialEq, Eq, Structural)]
pub enum Route {
    /// From an address drawn from the outbound block.
    Pool,
    /// From the machine's default address.
    Direct,
}

/// How a connection to `target` leaves that came in through the service `mode`:
/// from the pool, unless it came through the server name proxy and no rule picks
/// the name.
pub open spec fn route(mode: Mode, rules: RulesView, target: Target) -> Route {
    match (mode, target) {
        (Mode::Proxy, _) => Route::Pool,
        (Mode::Dns, Target::Domain(name, _)) => if rules.picks(name) {
            Route::Pool
        } else {
            Route::Direct
        },
        (Mode::Dns, Target::Ip(_)) => Route::Direct,
    }
}

/// How a connection to `target` leaves that came in through the service `mode`.
pub fn route_by_mode(mode: Mode, rules: &DomainRules, target: &TargetAddr) -> (r: Route)
    ensures
        r == route(mode, rules@, target@),
{
    match mode {
        Mode::Proxy => Route::Pool,
        Mode::Dns => match target {
            TargetAddr::Domain(name, _) => {
                if rules.is_match(name.as_str()) {
                    Route::Pool
                } else {
                    Route::Direct
                }
            },
            TargetAddr::Ip(_) => Route::Direct,
        },
    }
}

// --- Which address of several ---

/// The first IPv6 address in `addrs`.
pub open spec fn first_v6(addrs: Seq<SocketAddr>) -> Option<SocketAddr>
    decreases addrs.len(),
{
    if addrs.len() == 0 {
        None
    } else if addrs[0] is V6 {
        Some(addrs[0])
    } else {
        first_v6(addrs.skip(1))
    }
}

/// The address to use of those that a name has: the first IPv6 address, or the
/// last address where there is none.
pub open spec fn preferred(addrs: Seq<SocketAddr>) -> Result<SocketAddr, Failure> {
    match first_v6(addrs) {
        Some(addr) => Ok(addr),
        None => if addrs.len() > 0 {
            Ok(addrs.last())
        } else {
            Err(failure(ErrorKind::NotFound, "domain did not resolve"@))
        },
    }
}

/// The address to use of those that a name has.
pub fn preferred_addr(addrs: &[SocketAddr]) -> (r: Result<SocketAddr, Error>)
    ensures
        match r {
            Ok(addr) => preferred(addrs@) == Ok::<SocketAddr, Failure>(addr),
            Err(e) => preferred(addrs@) == Err::<SocketAddr, Failure>(e@),
        },
{
    let mut last_v4: Option<SocketAddr> = None;
    assert(addrs@.skip(0) == addrs@);
    for i in 0..addrs.len()
        invariant
            first_v6(addrs@.skip(i as int)) == first_v6(addrs@),
            last_v4 == if i == 0 {
                None
            } else {
                Some(addrs@[i - 1])
            },
    {
        assert(addrs@.skip(i as int).skip(1) == addrs@.skip(i + 1));
        assert(addrs@.skip(i as int)[0] == addrs@[i as int]);
        match addrs[i] {
            SocketAddr::V6 { .. } => return Ok(addrs[i]),
            SocketAddr::V4 { .. } => last_v4 = Some(addrs[i]),
        }
    }
    match last_v4 {
        Some(addr) => Ok(addr),
        None => Err(error(ErrorKind::NotFound, "domain did not resolve")),
    }
}

// --- Which local address ---

/// How a connection through the pool reaches `addr`: from the pool if it is an
/// IPv6 address, from the default address if it is not and that is allowed.
pub open spec fn outbound(addr: SocketAddr, ipv4_pass_through: bool) -> Result<Route, Failure> {
    match addr {
        SocketAddr::V6 { .. } => Ok(Route::Pool),
        SocketAddr::V4 { .. } => if ipv4_pass_through {
            Ok(Route::Direct)
        } else {
            Err(
                failure(
                    ErrorKind::Unsupported,
                    "IPv4 target is unsupported when outbound is bound to an IPv6 subnet"@,
                ),
            )
        },
    }
}

/// How a connection through the pool reaches `addr`.
pub fn outbound_for(addr: SocketAddr, ipv4_pass_through: bool) -> (r: Result<Route, Error>)
    ensures
        match r {
            Ok(route) => outbound(addr, ipv4_pass_through) == Ok::<Route, Failure>(route),
            Err(e) => outbound(addr, ipv4_pass_through) == Err::<Route, Failure>(e@),
        },
{
    match addr {
        SocketAddr::V6 { .. } => Ok(Route::Pool),
        SocketAddr::V4 { .. } => {
            if ipv4_pass_through {
                Ok(Route::Direct)
            } else {
                Err(
                    error(
                        ErrorKind::Unsupported,
                        "IPv4 target is unsupported when outbound is bound to an IPv6 subnet",
                    ),
                )
            }
        },
    }
}

// --- The server name proxy ---

/// Where the server name proxy connects a client whose first record is `b`.
pub open spec fn sni_target_of(b: Seq<u8>) -> Option<Target> {
    match sni(b) {
        Some(name) => Some(Target::Domain(name, HTTPS_PORT)),
        None => None,
    }
}

/// Where the server name proxy connects a client whose first record is `hello`,
/// if it names a server.
pub fn sni_target(hello: &[u8]) -> (target: Option<TargetAddr>)
    ensures
        match target {
            Some(t) => sni_target_of(hello@) == Some(t@),
            None => sni_target_of(hello@) is None,
        },
{
    match extract_sni_from_client_hello(hello) {
        Some(name) => Some(TargetAddr::Domain(name, HTTPS_PORT)),
        None => None,
    }
}

/// Where the server name proxy listens that belongs to the DNS listener `listen`.
pub fn sni_listen_addr(listen: SocketAddr) -> (addr: SocketAddr)
    ensures
        addr == SocketAddr::at(listen.spec_ip(), HTTPS_PORT),
{
    SocketAddr::new(listen.ip(), HTTPS_PORT)
}

// --- Laws ---

/// A name with an IPv6 address is reached by IPv6, through the pool, whether or
/// not IPv4 is allowed.
pub proof fn law_ipv6_is_preferred(addrs: Seq<SocketAddr>, i: int, ipv4_pass_through: bool)
    requires
        0 <= i < addrs.len(),
        addrs[i] is V6,
    ensures
        preferred(addrs) matches Ok(addr) && addr is V6 && addrs.contains(addr) && outbound(
            addr,
            ipv4_pass_through,
        ) == Ok::<Route, Failure>(Route::Pool),
{
    lemma_first_v6(addrs, i);
}

proof fn lemma_first_v6(addrs: Seq<SocketAddr>, i: int)
    requires
        0 <= i < addrs.len(),
        addrs[i] is V6,
    ensures
        first_v6(addrs) matches Some(addr) && addr is V6 && addrs.contains(addr),
    decreases addrs.len(),
{
    if !(addrs[0] is V6) {
        let rest = addrs.skip(1);
        assert(rest[i - 1] == addrs[i]);
        lemma_first_v6(rest, i - 1);
        let addr = first_v6(rest)->0;
        let j = choose|j: int| 0 <= j < rest.len() && rest[j] == addr;
        assert(addrs[j + 1] == addr);
    } else {
        assert(addrs.contains(addrs[0]));
    }
}

proof fn lemma_no_v6(addrs: Seq<SocketAddr>)
    requires
        forall|i: int| 0 <= i < addrs.len() ==> (#[trigger] addrs[i]) is V4,
    ensures
        first_v6(addrs) is None,
    decreases addrs.len(),
{
    if addrs.len() > 0 {
        assert(addrs[0] is V4);
        let rest = addrs.skip(1);
        assert forall|i: int| 0 <= i < rest.len() implies (#[trigger] rest[i]) is V4 by {
            assert(rest[i] == addrs[i + 1]);
        }
        lemma_no_v6(rest);
    }
}

/// A name with IPv4 addresses only is reached from the default address if that
/// is allowed, and not at all if it is not.
pub proof fn law_ipv4_only(addrs: Seq<SocketAddr>, ipv4_pass_through: bool)
    requires
        addrs.len() > 0,
        forall|i: int| 0 <= i < addrs.len() ==> (#[trigger] addrs[i]) is V4,
    ensures
        preferred(addrs) matches Ok(addr) && addr is V4 && addrs.contains(addr) && (
        if ipv4_pass_through {
            outbound(addr, ipv4_pass_through) == Ok::<Route, Failure>(Route::Direct)
        } else {
            outbound(addr, ipv4_pass_through) matches Err(f) && f.kind == ErrorKind::Unsupported
        }),
{
    lemma_no_v6(addrs);
    assert(addrs[addrs.len() - 1] is V4);
    assert(addrs.contains(addrs.last()));
}

/// The name in a query is in small letters.
proof fn lemma_name_is_lower(ls: Seq<Seq<u8>>)
    ensures
        lower(name_of(ls)) == name_of(ls),
    decreases ls.len(),
{
    if ls.len() > 0 {
        lemma_lower_twice(ls.last().map_values(|byte: u8| byte as char));
        let last = label_text(ls.last());
        assert(lower(last) == last);
        if ls.len() > 1 {
            lemma_name_is_lower(ls.drop_last());
            let front = name_of(ls.drop_last());
            let name = front.push('.') + last;
            assert(lower(name) == lower(front).push('.') + lower(last));
        }
    }
}

/// A name is answered here by DNS exactly if the server name proxy sends
/// connections to it through the pool: for every file of rules, every query for
/// a name without white space at its ends and without a dot at its end, and
/// every first record that names it.
pub proof fn law_dns_and_server_name_agree(
    head: Seq<u8>,
    ls: Seq<Seq<u8>>,
    tail: Seq<u8>,
    ip: IpAddr,
    lines: Seq<Seq<char>>,
    hello: Seq<u8>,
)
    requires
        query_parts(head, ls, tail),
        rules_of_lines(lines) is Ok,
        sni(hello) == Some(name_of(ls)),
        name_of(ls).len() > 0 ==> {
            &&& !is_white_space(name_of(ls)[0])
            &&& !is_white_space(name_of(ls).last())
            &&& name_of(ls).last() != '.'
        },
    ensures
        ({
            let rules = rules_of_lines(lines)->Ok_0;
            dns_outcome(query(head, ls, tail), ip, rules) is Reply <==> (sni_target_of(
                hello,
            ) matches Some(target) && route(Mode::Dns, rules, target) == Route::Pool)
        }),
{
    let rules = rules_of_lines(lines)->Ok_0;
    law_rules_decide_who_answers(head, ls, tail, ip, rules);
    if name_of(ls).len() > 0 {
        lemma_name_is_lower(ls);
        law_normal_name_is_compared_as_it_stands(rules, name_of(ls));
    } else {
        assert(name_of(ls) == Seq::<char>::empty());
        law_empty_name_is_never_picked(lines);
    }
}

/// Every connection of the SOCKS5 proxy leaves through the pool, whatever its
/// target and whatever the rules.
pub proof fn law_proxy_uses_the_pool(
    rules: RulesView,
    addr: SocketAddr,
    name: Seq<char>,
    port: u16,
)
    ensures
        route(Mode::Proxy, rules, Target::Ip(addr)) == Route::Pool,
        route(Mode::Proxy, rules, Target::Domain(name, port)) == Route::Pool,
{
}

/// A connection of the server name proxy leaves through the pool exactly if it
/// has a name and a rule picks it.
pub proof fn law_rules_route_server_names(
    rules: RulesView,
    addr: SocketAddr,
    name: Seq<char>,
    port: u16,
)
    ensures
        route(Mode::Dns, rules, Target::Ip(addr)) == Route::Direct,
        route(Mode::Dns, rules, Target::Domain(name, port)) == Route::Pool <==> rules.picks(name),
        route(Mode::Dns, rules, Target::Domain(name, port)) == Route::Direct <==> !rules.picks(
            name,
        ),
{
}

/// Of the addresses of a name the first IPv6 address is used.
pub proof fn law_first_ipv6_is_used(
    before: Seq<SocketAddr>,
    addr: SocketAddr,
    after: Seq<SocketAddr>,
)
    requires
        forall|i: int| 0 <= i < before.len() ==> (#[trigger] before[i]) is V4,
        addr is V6,
    ensures
        preferred(before.push(addr) + after) == Ok::<SocketAddr, Failure>(addr),
    decreases before.len(),
{
    let all = before.push(addr) + after;
    if before.len() == 0 {
        assert(all[0] == addr);
    } else {
        let rest = before.skip(1);
        assert(all[0] == before[0]);
        assert(all.skip(1) == rest.push(addr) + after);
        assert forall|i: int| 0 <= i < rest.len() implies (#[trigger] rest[i]) is V4 by {
            assert(rest[i] == before[i + 1]);
        }
        law_first_ipv6_is_used(rest, addr, after);
        assert(first_v6(rest.push(addr) + after) == Some(addr)) by {
            lemma_first_v6(rest.push(addr) + after, rest.len() as int);
        }
    }
}

/// Of the addresses of a name without an IPv6 address the last one is used; a
/// name without addresses is not found.
pub proof fn law_last_ipv4_is_used(addrs: Seq<SocketAddr>)
    requires
        forall|i: int| 0 <= i < addrs.len() ==> (#[trigger] addrs[i]) is V4,
    ensures
        match preferred(addrs) {
            Ok(addr) => addrs.len() > 0 && addr == addrs[addrs.len() - 1],
            Err(f) => addrs.len() == 0 && f.kind == ErrorKind::NotFound,
        },
{
    lemma_no_v6(addrs);
}

/// Through the pool every IPv6 address is reached from the pool; an IPv4 address
/// is reached from the default address where that is allowed, and refused where
/// it is not.
pub proof fn law_family_decides_the_source(addr: SocketAddr, ipv4_pass_through: bool)
    ensures
        match outbound(addr, ipv4_pass_through) {
            Ok(Route::Pool) => addr is V6,
            Ok(Route::Direct) => addr is V4 && ipv4_pass_through,
            Err(f) => addr is V4 && !ipv4_pass_through && f.kind == ErrorKind::Unsupported,
        },
{
}

/// The server name proxy connects to port 443 of the server that the first record
/// names, and nowhere where it names none.
pub proof fn law_server_name_is_the_target(hello: Seq<u8>)
    ensures
        match (sni(hello), sni_target_of(hello)) {
            (Some(name), Some(Target::Domain(n, port))) => n == name && port == 443,
            (None, None) => true,
            _ => false,
        },
{
}

/// The server name proxy listens on port 443 of the address that DNS answers
/// with.
pub proof fn law_server_name_proxy_listens_beside_dns(listen: SocketAddr, addr: SocketAddr)
    requires
        call_ensures(sni_listen_addr, (listen,), addr),
    ensures
        addr.spec_ip() == listen.spec_ip(),
        match addr {
            SocketAddr::V4 { port, .. } => port == 443,
            SocketAddr::V6 { port, flowinfo, scope_id, .. } => port == 443 && flowinfo == 0
                && scope_id == 0,
        },
{
}

/// The services are named by their words, in capitals or small letters, and by
/// nothing else.
pub proof fn law_services_are_named(value: Seq<char>)
    ensures
        mode_text(value) == Ok::<Mode, Failure>(Mode::Proxy) <==> spelled(
            value,
            seq!['p', 'r', 'o', 'x', 'y'],
        ),
        mode_text(value) == Ok::<Mode, Failure>(Mode::Dns) <==> spelled(
            value,
            seq!['d', 'n', 's'],
        ),
        mode_text(value) matches Err(f) ==> f.kind == ErrorKind::InvalidInput,
{
    reveal_strlit("proxy");
    reveal_strlit("dns");
    let proxy = seq!['p', 'r', 'o', 'x', 'y'];
    let dns = seq!['d', 'n', 's'];
    assert("proxy"@ =~= proxy);
    assert("dns"@ =~= dns);
    assert(proxy.len() == 5 && dns.len() == 3);
    lemma_spelled(value, proxy);
    lemma_spelled(value, dns);
}

} // verus!
