use ipv6_pool_proxy::prefix::{
    ipv4_network_of, ipv4_prefix_mask, network_of, prefix_mask, Ipv6Prefix,
};

const NET: u128 = 0x2001_0470_0019_0226_0000_0000_0000_0000;

fn refusal(value: &str) -> String {
    match Ipv6Prefix::parse(value) {
        Ok(_) => panic!("{:?} was read", value),
        Err(e) => e.message,
    }
}

#[test]
fn masks_have_the_leading_bits() {
    assert_eq!(prefix_mask(0), 0);
    assert_eq!(prefix_mask(1), 1u128 << 127);
    assert_eq!(prefix_mask(64), 0xffff_ffff_ffff_ffff_0000_0000_0000_0000);
    assert_eq!(prefix_mask(127), u128::MAX - 1);
    assert_eq!(prefix_mask(128), u128::MAX);
    assert_eq!(ipv4_prefix_mask(0), 0);
    assert_eq!(ipv4_prefix_mask(1), 0x8000_0000);
    assert_eq!(ipv4_prefix_mask(24), 0xffff_ff00);
    assert_eq!(ipv4_prefix_mask(32), u32::MAX);
}

#[test]
fn networks_start_their_blocks() {
    assert_eq!(network_of(NET + 77, 64), NET);
    assert_eq!(network_of(NET + 77, 128), NET + 77);
    assert_eq!(network_of(NET + 77, 0), 0);
    assert_eq!(ipv4_network_of(0x0102_0304, 24), 0x0102_0300);
    assert_eq!(ipv4_network_of(0x0102_0304, 32), 0x0102_0304);
    assert_eq!(ipv4_network_of(0x0102_0304, 0), 0);
}

#[test]
fn cidr_text_is_read() {
    let p = Ipv6Prefix::parse("2001:470:19:226::/64").ok();
    assert_eq!(p, Some(Ipv6Prefix { network: NET, prefix_len: 64 }));
    let p = Ipv6Prefix::parse("2001:470:19:226:1:2:3:4/64").ok();
    assert_eq!(p, Some(Ipv6Prefix { network: NET, prefix_len: 64 }));
    let p = Ipv6Prefix::parse("::/0").ok();
    assert_eq!(p, Some(Ipv6Prefix { network: 0, prefix_len: 0 }));
    let p = Ipv6Prefix::parse("::1/128").ok();
    assert_eq!(p, Some(Ipv6Prefix { network: 1, prefix_len: 128 }));
}

#[test]
fn malformed_cidr_text_is_refused() {
    assert_eq!(
        refusal("2001:470::1"),
        "IPv6 prefix must be in CIDR format, e.g. 2001:470:19:226::/64"
    );
    assert_eq!(refusal("1.2.3.4/24"), "invalid IPv6 prefix address");
    assert_eq!(refusal("x/999"), "invalid IPv6 prefix address");
    assert_eq!(refusal(" ::/64"), "invalid IPv6 prefix address");
    assert_eq!(refusal("::/"), "invalid IPv6 prefix length");
    assert_eq!(refusal("::/64/1"), "invalid IPv6 prefix length");
    assert_eq!(refusal("::/256"), "invalid IPv6 prefix length");
    assert_eq!(refusal("::/129"), "IPv6 prefix length must be between 0 and 128");
}

#[test]
fn parts_that_were_read() {
    let len: Vec<char> = "64".chars().collect();
    assert_eq!(
        Ipv6Prefix::from_parts(Some(NET + 1), &len).ok(),
        Some(Ipv6Prefix { network: NET, prefix_len: 64 })
    );
    assert!(Ipv6Prefix::from_parts(None, &len).is_err());
}

#[test]
fn host_bits_come_from_the_number() {
    let p = Ipv6Prefix { network: NET, prefix_len: 64 };
    assert_eq!(p.addr_with_host(0), NET);
    assert_eq!(p.addr_with_host(u128::MAX), NET + u64::MAX as u128);
    assert_eq!(p.addr_with_host((5u128 << 64) + 7), NET + 7);
    assert_eq!(p.addr_with_host(NET + 1234), NET + 1234);
    let one = Ipv6Prefix { network: NET + 9, prefix_len: 128 };
    assert_eq!(one.addr_with_host(u128::MAX), NET + 9);
    let all = Ipv6Prefix { network: 0, prefix_len: 0 };
    assert_eq!(all.addr_with_host(u128::MAX), u128::MAX);
}

#[test]
fn drawn_addresses_lie_in_the_block_and_differ() {
    let p = Ipv6Prefix { network: NET, prefix_len: 64 };
    let mut drawn: Vec<u128> = Vec::new();
    for _ in 0..64 {
        let addr = p.random_addr();
        assert_eq!(addr >> 64, NET >> 64);
        assert!(!drawn.contains(&addr));
        drawn.push(addr);
    }
}
