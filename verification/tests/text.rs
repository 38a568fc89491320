use ipv6_pool_proxy::text::{parse_u8, white_space};

#[test]
fn white_space_is_the_unicode_property() {
    for c in '\0'..=char::MAX {
        assert_eq!(white_space(c), c.is_whitespace(), "{:?}", c);
    }
}

#[test]
fn small_numbers_are_read_as_the_standard_library_reads_them() {
    for text in [
        "", "+", "-", "0", "7", "64", "128", "255", "256", "999", "0064", "+5", "+0", "-0", "-1",
        "++1", " 1", "1 ", "1a", "a", "00000000000000000000000001", "99999999999999999999", "1_0",
        "\u{661}", "0x10",
    ] {
        let chars: Vec<char> = text.chars().collect();
        assert_eq!(parse_u8(&chars), text.parse::<u8>().ok(), "{:?}", text);
    }
}
