use ipv6_pool_proxy::error::ErrorKind;
use ipv6_pool_proxy::net::{normalize_peer_ip, IpAddr};
use ipv6_pool_proxy::whitelist::{whitelist_entry, Entry, IpWhitelist};

fn v4(a: u8, b: u8, c: u8, d: u8) -> IpAddr {
    IpAddr::V4(u32::from_be_bytes([a, b, c, d]))
}

fn mapped(a: u8, b: u8, c: u8, d: u8) -> IpAddr {
    IpAddr::V6(0xffff_0000_0000 + u32::from_be_bytes([a, b, c, d]) as u128)
}

fn list(content: &str) -> IpWhitelist {
    match IpWhitelist::parse(content) {
        Ok(list) => list,
        Err(e) => panic!("{}", e.message),
    }
}

fn refusal(content: &str) -> String {
    match IpWhitelist::parse(content) {
        Ok(_) => panic!("{:?} was read", content),
        Err(e) => {
            assert_eq!(e.kind, ErrorKind::InvalidInput);
            e.message
        }
    }
}

const DB8: u128 = 0x2001_0db8_0000_0000_0000_0000_0000_0000;

#[test]
fn single_addresses_and_blocks() {
    let l = list("# all kinds\n1.1.1.1\n10.0.0.0/8 # ten\n\n::1\n2001:db8::/32\n");
    assert_eq!(l.len(), 4);
    assert!(l.allows(v4(1, 1, 1, 1)));
    assert!(!l.allows(v4(1, 1, 1, 2)));
    assert!(l.allows(v4(10, 0, 0, 0)));
    assert!(l.allows(v4(10, 255, 255, 255)));
    assert!(!l.allows(v4(11, 0, 0, 0)));
    assert!(!l.allows(v4(9, 255, 255, 255)));
    assert!(l.allows(IpAddr::V6(1)));
    assert!(!l.allows(IpAddr::V6(2)));
    assert!(l.allows(IpAddr::V6(DB8)));
    assert!(l.allows(IpAddr::V6(DB8 + (1u128 << 96) - 1)));
    assert!(!l.allows(IpAddr::V6(DB8 + (1u128 << 96))));
    assert!(!l.allows(IpAddr::V6(DB8 - 1)));
}

#[test]
fn host_bits_of_a_block_do_not_matter() {
    let l = list("1.1.1.77/24\n2001:db8::ffff/112");
    assert!(l.allows(v4(1, 1, 1, 0)));
    assert!(l.allows(v4(1, 1, 1, 255)));
    assert!(!l.allows(v4(1, 1, 2, 77)));
    assert!(l.allows(IpAddr::V6(DB8)));
    assert!(!l.allows(IpAddr::V6(DB8 + 0x1_0000)));
}

#[test]
fn address_alone_is_the_full_prefix() {
    for content in ["1.1.1.1", "1.1.1.1/32", " 1.1.1.1 / 32 "] {
        let l = list(content);
        assert!(l.allows(v4(1, 1, 1, 1)));
        assert!(!l.allows(v4(1, 1, 1, 0)));
    }
    for content in ["::1", "::1/128"] {
        let l = list(content);
        assert!(l.allows(IpAddr::V6(1)));
        assert!(!l.allows(IpAddr::V6(0)));
    }
}

#[test]
fn zero_length_is_the_whole_family() {
    let l = list("::/0");
    assert!(l.allows(IpAddr::V6(0)));
    assert!(l.allows(IpAddr::V6(u128::MAX)));
    assert!(!l.allows(v4(1, 2, 3, 4)));
    assert!(!l.allows(mapped(1, 2, 3, 4)));
    let l = list("9.9.9.9/0");
    assert!(l.allows(v4(1, 2, 3, 4)));
    assert!(!l.allows(IpAddr::V6(1)));
}

#[test]
fn mapped_peers_are_ipv4_peers() {
    let l = list("1.2.3.4");
    assert!(l.allows(mapped(1, 2, 3, 4)));
    assert!(!l.allows(mapped(1, 2, 3, 5)));
    assert!(!l.allows(IpAddr::V6(0x0102_0304)));
    assert!(!list("::ffff:1.2.3.4").allows(mapped(1, 2, 3, 4)));
    assert_eq!(normalize_peer_ip(mapped(1, 2, 3, 4)), v4(1, 2, 3, 4));
    assert_eq!(normalize_peer_ip(mapped(255, 255, 255, 255)), v4(255, 255, 255, 255));
    assert_eq!(normalize_peer_ip(v4(1, 2, 3, 4)), v4(1, 2, 3, 4));
    for n in [0u128, 1, 0xfffe_ffff_ffff, 0x1_0000_0000_0000, 0x1_ffff_0000_0000, u128::MAX] {
        assert_eq!(normalize_peer_ip(IpAddr::V6(n)), IpAddr::V6(n));
    }
}

#[test]
fn empty_whitelist_admits_nobody() {
    for content in ["", "\n\n", "# nobody\n", "   \r\n"] {
        let l = list(content);
        assert_eq!(l.len(), 0);
        assert!(!l.allows(v4(127, 0, 0, 1)));
        assert!(!l.allows(IpAddr::V6(1)));
    }
    assert_eq!(IpWhitelist::default().len(), 0);
}

#[test]
fn malformed_lines_are_refused_with_their_number() {
    assert_eq!(refusal("1.1.1.1\nlocalhost # me"), "invalid IP at whitelist line 2: localhost");
    assert_eq!(refusal("1.1.1"), "invalid IP at whitelist line 1: 1.1.1");
    assert_eq!(refusal("/8"), "invalid IP at whitelist line 1: /8");
    assert_eq!(refusal("1.1.1.1/x"), "invalid prefix at whitelist line 1: 1.1.1.1/x");
    assert_eq!(refusal("\n::/"), "invalid prefix at whitelist line 2: ::/");
    assert_eq!(refusal("::1/256"), "invalid prefix at whitelist line 1: ::1/256");
    assert_eq!(refusal("1.1.1.1/33"), "v4 prefix length must be 0..=32 at whitelist line 1");
    assert_eq!(refusal("::1/129"), "v6 prefix length must be 0..=128 at whitelist line 1");
}

#[test]
fn entry_of_an_address_that_was_read() {
    let text: Vec<char> = "10.9.8.7/8".chars().collect();
    let len: Vec<char> = "8".chars().collect();
    let e = whitelist_entry(Some(v4(10, 9, 8, 7)), Some(&len), &text, 1);
    assert_eq!(e.ok(), Some(Entry::V4(0x0a00_0000, 8)));
    let e = whitelist_entry(Some(IpAddr::V6(7)), None, &text, 1);
    assert_eq!(e.ok(), Some(Entry::V6(7, 128)));
    let e = whitelist_entry(None, Some(&len), &text, 3);
    assert_eq!(e.err().map(|e| e.message), Some("invalid IP at whitelist line 3: 10.9.8.7/8".to_string()));
}

#[test]
fn bits_behind_the_prefix_are_cleared() {
    let text: Vec<char> = "x".chars().collect();
    for len in 0..=128u8 {
        let part: Vec<char> = len.to_string().chars().collect();
        let mask6 = u128::MAX.checked_shl(128 - len as u32).unwrap_or(0);
        let e = whitelist_entry(Some(IpAddr::V6(u128::MAX - 6)), Some(&part), &text, 1);
        assert_eq!(e.ok(), Some(Entry::V6((u128::MAX - 6) & mask6, len)));
        if len <= 32 {
            let mask4 = u32::MAX.checked_shl(32 - len as u32).unwrap_or(0);
            let e = whitelist_entry(Some(IpAddr::V4(u32::MAX - 6)), Some(&part), &text, 1);
            assert_eq!(e.ok(), Some(Entry::V4((u32::MAX - 6) & mask4, len)));
        }
    }
}
