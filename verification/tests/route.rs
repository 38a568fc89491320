use ipv6_pool_proxy::dns::{dns_action, DnsAction};
use ipv6_pool_proxy::domain::DomainRules;
use ipv6_pool_proxy::error::ErrorKind;
use ipv6_pool_proxy::net::{IpAddr, SocketAddr};
use ipv6_pool_proxy::route::{
    outbound_for, preferred_addr, route_by_mode, sni_listen_addr, sni_target, Mode, Route,
    TargetAddr,
};

fn v4(n: u32) -> SocketAddr {
    SocketAddr::new(IpAddr::V4(n), 80)
}

fn v6(n: u128) -> SocketAddr {
    SocketAddr::new(IpAddr::V6(n), 80)
}

fn rules() -> DomainRules {
    match DomainRules::parse("suffix:google.com") {
        Ok(rules) => rules,
        Err(e) => panic!("{}", e.message),
    }
}

fn name(text: &str) -> TargetAddr {
    TargetAddr::Domain(text.to_string(), 443)
}

#[test]
fn modes_are_read_in_any_case() {
    assert_eq!(Mode::parse("proxy").ok(), Some(Mode::Proxy));
    assert_eq!(Mode::parse("DNS").ok(), Some(Mode::Dns));
    let e = Mode::parse("dns ").unwrap_err();
    assert_eq!(e.kind, ErrorKind::InvalidInput);
    assert_eq!(e.message, "-m/--mode must be proxy or dns");
}

#[test]
fn proxy_always_uses_the_pool() {
    let r = rules();
    assert_eq!(route_by_mode(Mode::Proxy, &r, &name("example.org")), Route::Pool);
    assert_eq!(route_by_mode(Mode::Proxy, &r, &TargetAddr::Ip(v4(1))), Route::Pool);
}

#[test]
fn server_names_use_the_pool_if_a_rule_picks_them() {
    let r = rules();
    assert_eq!(route_by_mode(Mode::Dns, &r, &name("www.Google.com.")), Route::Pool);
    assert_eq!(route_by_mode(Mode::Dns, &r, &name("example.org")), Route::Direct);
    assert_eq!(route_by_mode(Mode::Dns, &r, &TargetAddr::Ip(v6(1))), Route::Direct);
}

#[test]
fn first_ipv6_address_or_last_ipv4_address() {
    assert_eq!(preferred_addr(&[v4(1), v6(2), v4(3), v6(4)]).ok(), Some(v6(2)));
    assert_eq!(preferred_addr(&[v4(1), v4(2), v4(3)]).ok(), Some(v4(3)));
    let e = preferred_addr(&[]).unwrap_err();
    assert_eq!(e.kind, ErrorKind::NotFound);
    assert_eq!(e.message, "domain did not resolve");
}

#[test]
fn ipv4_targets_need_permission() {
    assert_eq!(outbound_for(v6(1), false).ok(), Some(Route::Pool));
    assert_eq!(outbound_for(v6(1), true).ok(), Some(Route::Pool));
    assert_eq!(outbound_for(v4(1), true).ok(), Some(Route::Direct));
    let e = outbound_for(v4(1), false).unwrap_err();
    assert_eq!(e.kind, ErrorKind::Unsupported);
    assert_eq!(
        e.message,
        "IPv4 target is unsupported when outbound is bound to an IPv6 subnet"
    );
}

#[test]
fn server_name_target_is_the_https_port() {
    let mut hello: Vec<u8> = vec![0x16, 3, 1, 0, 0, 1, 0, 0, 0, 3, 3];
    hello.extend([0u8; 32]);
    hello.extend([0, 0, 2, 0x13, 1, 1, 0, 0, 12, 0, 0, 0, 8, 0, 6, 0, 0, 3, b'A', b'.', b'b']);
    match sni_target(&hello) {
        Some(TargetAddr::Domain(name, port)) => {
            assert_eq!(name, "a.b");
            assert_eq!(port, 443);
        }
        _ => panic!(),
    }
    assert!(sni_target(&hello[..40]).is_none());
}

#[test]
fn server_name_proxy_listens_beside_dns() {
    let listen = SocketAddr::V6 { ip: 5, port: 53, flowinfo: 1, scope_id: 2 };
    assert_eq!(
        sni_listen_addr(listen),
        SocketAddr::V6 { ip: 5, port: 443, flowinfo: 0, scope_id: 0 }
    );
    assert_eq!(sni_listen_addr(v4(9)), SocketAddr::V4 { ip: 9, port: 443 });
}

#[test]
fn dns_answers_what_the_server_name_proxy_sends_through_the_pool() {
    let r = rules();
    for (labels, pooled) in [
        (vec!["google", "com"], true),
        (vec!["www", "Google", "com"], true),
        (vec!["xgoogle", "com"], false),
        (vec!["com"], false),
    ] {
        let mut query: Vec<u8> = vec![0, 1, 1, 0, 0, 1, 0, 0, 0, 0, 0, 0];
        for label in &labels {
            query.push(label.len() as u8);
            query.extend(label.as_bytes());
        }
        query.extend([0, 0, 1, 0, 1]);
        let answered = matches!(dns_action(&query, IpAddr::V4(7), &r), DnsAction::Reply(_));
        assert_eq!(answered, pooled);

        let host = labels.join(".");
        let n = host.len() as u8;
        let mut hello: Vec<u8> = vec![0x16, 3, 1, 0, 0, 1, 0, 0, 0, 3, 3];
        hello.extend([0u8; 32]);
        hello.extend([0, 0, 2, 0x13, 1, 1, 0, 0, n + 9, 0, 0, 0, n + 5, 0, n + 3, 0, 0, n]);
        hello.extend(host.as_bytes());
        let target = sni_target(&hello).unwrap();
        assert_eq!(route_by_mode(Mode::Dns, &r, &target) == Route::Pool, pooled);
    }
}
