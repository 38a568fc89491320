use ipv6_pool_proxy::config::{parse_args, Command, Config};
use ipv6_pool_proxy::dns::{
    build_dns_response_header, datagram_action, dns_action, dns_query_type_matches_listen_ip,
    DnsAction,
};
use ipv6_pool_proxy::domain::DomainRules;
use ipv6_pool_proxy::net::IpAddr;

const V4: IpAddr = IpAddr::V4(0x0102_0304);
const V6: IpAddr = IpAddr::V6(0x2001_0db8_0000_0000_0000_0000_0000_0001);

fn rules() -> DomainRules {
    match DomainRules::parse("suffix:google.com") {
        Ok(rules) => rules,
        Err(e) => panic!("{}", e.message),
    }
}

fn query(labels: &[&[u8]], qtype: u8) -> Vec<u8> {
    let mut out: Vec<u8> = vec![0xab, 0xcd, 0x01, 0x00, 0, 1, 0, 0, 0, 0, 0, 0];
    for label in labels {
        out.push(label.len() as u8);
        out.extend(*label);
    }
    out.extend([0, 0, qtype, 0, 1]);
    out
}

fn reply(packet: &[u8], ip: IpAddr) -> Vec<u8> {
    match dns_action(packet, ip, &rules()) {
        DnsAction::Reply(bytes) => bytes,
        other => panic!("{:?}", other),
    }
}

#[test]
fn picked_name_is_answered_with_the_ipv4_listener() {
    let q = query(&[b"WWW", b"google", b"com"], 1);
    let mut expected: Vec<u8> = vec![0xab, 0xcd, 0x81, 0x80, 0, 1, 0, 1, 0, 0, 0, 0];
    expected.extend(&q[12..]);
    expected.extend([0xc0, 0x0c, 0, 1, 0, 1, 0, 0, 0, 60, 0, 4, 1, 2, 3, 4]);
    assert_eq!(reply(&q, V4), expected);
}

#[test]
fn picked_name_is_answered_with_the_ipv6_listener() {
    let q = query(&[b"google", b"com"], 28);
    let mut expected: Vec<u8> = vec![0xab, 0xcd, 0x81, 0x80, 0, 1, 0, 1, 0, 0, 0, 0];
    expected.extend(&q[12..]);
    expected.extend([0xc0, 0x0c, 0, 28, 0, 1, 0, 0, 0, 60, 0, 16]);
    expected.extend([0x20, 0x01, 0x0d, 0xb8, 0, 0, 0, 0, 0, 0, 0, 0, 0, 0, 0, 1]);
    assert_eq!(reply(&q, V6), expected);
}

#[test]
fn other_family_gets_no_answer_and_no_error() {
    for (qtype, ip) in [(28, V4), (1, V6), (15, V4), (65, V6)] {
        let q = query(&[b"google", b"com"], qtype);
        let mut expected: Vec<u8> = vec![0xab, 0xcd, 0x81, 0x80, 0, 1, 0, 0, 0, 0, 0, 0];
        expected.extend(&q[12..]);
        assert_eq!(reply(&q, ip), expected);
    }
}

#[test]
fn what_stands_behind_the_question_is_left_out() {
    let q = query(&[b"google", b"com"], 1);
    let mut longer = q.clone();
    longer.extend([0, 0, 41, 16, 0, 0, 0, 0, 0, 0, 0]);
    assert_eq!(reply(&longer, V4), reply(&q, V4));
}

#[test]
fn other_names_go_to_the_resolver() {
    for labels in [&[b"example".as_slice(), b"com".as_slice()], &[b"xgoogle", b"com"]] {
        let action = dns_action(&query(labels, 1), V4, &rules());
        assert!(matches!(action, DnsAction::Forward));
    }
    assert!(matches!(dns_action(&query(&[], 1), V4, &rules()), DnsAction::Forward));
    let odd = query(&[&[0xff, 0xfe], b"com"], 1);
    assert!(matches!(dns_action(&odd, V4, &rules()), DnsAction::Forward));
}

#[test]
fn packet_without_a_question_comes_back() {
    let q: Vec<u8> = vec![1, 2, 3, 4, 0, 0, 7, 8, 9, 10, 11, 12, 13];
    assert_eq!(reply(&q, V4), q);
}

#[test]
fn broken_packets_are_dropped() {
    let q = query(&[b"google", b"com"], 1);
    for n in 0..q.len() {
        let action = dns_action(&q[..n], V4, &rules());
        assert!(matches!(action, DnsAction::Drop), "{} bytes", n);
    }
}

#[test]
fn labels_may_be_long() {
    let long = [b'a'; 255];
    let q = query(&[&long, b"google", b"com"], 1);
    assert_eq!(reply(&q, V4)[7], 1);
}

#[test]
fn types_of_the_families() {
    assert!(dns_query_type_matches_listen_ip(1, V4));
    assert!(dns_query_type_matches_listen_ip(28, V6));
    assert!(!dns_query_type_matches_listen_ip(28, V4));
    assert!(!dns_query_type_matches_listen_ip(1, V6));
    assert!(!dns_query_type_matches_listen_ip(257, V4));
}

#[test]
fn reply_headers() {
    assert_eq!(
        build_dns_response_header(&[9, 8, 7], true),
        vec![9, 8, 0x81, 0x80, 0, 1, 0, 1, 0, 0, 0, 0]
    );
    assert_eq!(
        build_dns_response_header(&[9, 8], false),
        vec![9, 8, 0x81, 0x80, 0, 1, 0, 0, 0, 0, 0, 0]
    );
}

fn config(whitelist: Option<&str>) -> Config {
    let mut words = vec!["-dns", "1.2.3.4:53", "-p", "::/0"];
    if whitelist.is_some() {
        words.extend(["-w", "ip.conf"]);
    }
    let args: Vec<String> = words.iter().map(|w| w.to_string()).collect();
    match parse_args(&args) {
        Ok(Command::Run(options)) => options
            .configure(
                Some(Ok("suffix:google.com".to_string())),
                whitelist.map(|w| Ok(w.to_string())),
            )
            .unwrap(),
        _ => panic!(),
    }
}

#[test]
fn packets_of_senders_that_are_kept_out_are_dropped() {
    let known = IpAddr::V4(0x0a00_0001);
    let unknown = IpAddr::V4(0x0b00_0001);
    let picked = query(&[b"google", b"com"], 1);
    let other = query(&[b"example", b"com"], 1);
    let list = config(Some("10.0.0.0/8"));
    match datagram_action(known, &picked, V4, &list) {
        DnsAction::Reply(bytes) => assert_eq!(bytes, reply(&picked, V4)),
        action => panic!("{:?}", action),
    }
    assert!(matches!(datagram_action(known, &other, V4, &list), DnsAction::Forward));
    assert!(matches!(datagram_action(unknown, &picked, V4, &list), DnsAction::Drop));
    assert!(matches!(datagram_action(unknown, &other, V4, &list), DnsAction::Drop));
    let open = config(None);
    assert!(matches!(datagram_action(unknown, &picked, V4, &open), DnsAction::Reply(_)));
    assert!(matches!(datagram_action(unknown, &other, V4, &open), DnsAction::Forward));
    let shut = config(Some(""));
    assert!(matches!(datagram_action(known, &picked, V4, &shut), DnsAction::Drop));
}
