use ipv6_pool_proxy::error::ErrorKind;
use ipv6_pool_proxy::tls::{client_hello_len, extract_sni_from_client_hello};

fn be16(n: usize) -> Vec<u8> {
    vec![(n / 256) as u8, (n % 256) as u8]
}

fn extension(kind: usize, body: &[u8]) -> Vec<u8> {
    let mut out = be16(kind);
    out.extend(be16(body.len()));
    out.extend(body);
    out
}

fn names(entries: &[(u8, &[u8])]) -> Vec<u8> {
    let mut list: Vec<u8> = Vec::new();
    for (kind, name) in entries {
        list.push(*kind);
        list.extend(be16(name.len()));
        list.extend(*name);
    }
    let mut body = be16(list.len());
    body.extend(list);
    extension(0, &body)
}

fn hello(extensions: &[u8]) -> Vec<u8> {
    let mut out: Vec<u8> = vec![0x16, 3, 1, 0, 0, 1, 0, 0, 0, 3, 3];
    out.extend([7u8; 32]);
    out.push(3);
    out.extend([1, 2, 3]);
    out.extend(be16(4));
    out.extend([0x13, 0x01, 0x13, 0x02]);
    out.push(1);
    out.push(0);
    out.extend(be16(extensions.len()));
    out.extend(extensions);
    let n = out.len() - 5;
    out[3] = (n / 256) as u8;
    out[4] = (n % 256) as u8;
    out
}

fn sni(buf: &[u8]) -> Option<String> {
    extract_sni_from_client_hello(buf)
}

#[test]
fn server_name_is_read_in_small_letters() {
    let h = hello(&names(&[(0, b"WWW.Example.org")]));
    assert_eq!(sni(&h), Some("www.example.org".to_string()));
    let h = hello(&names(&[(0, b"")]));
    assert_eq!(sni(&h), Some(String::new()));
    let h = hello(&names(&[(0, "\u{c4}B".as_bytes())]));
    assert_eq!(sni(&h), Some("\u{c4}b".to_string()));
}

#[test]
fn other_extensions_and_entries_are_passed_over() {
    let mut exts = extension(10, &[1, 2, 3]);
    exts.extend(extension(23, &[]));
    exts.extend(names(&[(1, b"other"), (0, b"a.b"), (0, b"c.d")]));
    exts.extend(extension(16, &[9; 300]));
    assert_eq!(sni(&hello(&exts)), Some("a.b".to_string()));
    let mut exts = names(&[(1, b"other")]);
    exts.extend(names(&[(0, b"second")]));
    assert_eq!(sni(&hello(&exts)), Some("second".to_string()));
}

#[test]
fn hello_without_a_server_name() {
    assert_eq!(sni(&hello(&[])), None);
    assert_eq!(sni(&hello(&extension(10, &[1]))), None);
    assert_eq!(sni(&hello(&names(&[(1, b"other")]))), None);
    assert_eq!(sni(&hello(&extension(0, &[0]))), None);
    assert_eq!(sni(&hello(&extension(0, &[]))), None);
}

#[test]
fn name_that_is_not_utf8_is_no_name() {
    let mut exts = names(&[(0, &[0xff, 0xfe])]);
    exts.extend(names(&[(0, b"a")]));
    assert_eq!(sni(&hello(&exts)), None);
}

#[test]
fn broken_off_hellos_never_give_another_name() {
    let h = hello(&names(&[(0, b"example.org")]));
    for n in 0..h.len() {
        assert_eq!(sni(&h[..n]), None, "{} bytes", n);
    }
    let mut longer = h.clone();
    longer.extend([1, 2, 3]);
    assert_eq!(sni(&longer), Some("example.org".to_string()));
}

#[test]
fn extensions_may_claim_more_than_there_is() {
    let mut exts = names(&[(0, b"a.b")]);
    exts.extend([0, 5, 255, 255]);
    let mut h = hello(&exts);
    assert_eq!(sni(&h), Some("a.b".to_string()));
    let at = h.len() - exts.len() - 2;
    h[at] = 0xff;
    assert_eq!(sni(&h), Some("a.b".to_string()));
}

#[test]
fn other_records_are_no_hello() {
    let mut h = hello(&names(&[(0, b"a.b")]));
    h[0] = 0x17;
    assert_eq!(sni(&h), None);
    h[0] = 0x16;
    h[5] = 2;
    assert_eq!(sni(&h), None);
}

#[test]
fn record_length_comes_from_the_header() {
    assert_eq!(client_hello_len([0x16, 3, 1, 0, 0]).ok(), Some(5));
    assert_eq!(client_hello_len([0x16, 3, 1, 2, 1]).ok(), Some(5 + 513));
    assert_eq!(client_hello_len([0x16, 3, 1, 0x40, 0]).ok(), Some(16389));
    let e = client_hello_len([0x16, 3, 1, 0x40, 1]).unwrap_err();
    assert_eq!(e.kind, ErrorKind::InvalidData);
    assert_eq!(e.message, "TLS record length 16385 exceeds cap");
    let e = client_hello_len([0x47, 0x45, 0x54, 0x20, 0x2f]).unwrap_err();
    assert_eq!(e.kind, ErrorKind::InvalidData);
    assert_eq!(e.message, "not a TLS handshake record (first byte=0x47)");
    let e = client_hello_len([0x0a, 0, 0, 0, 0]).unwrap_err();
    assert_eq!(e.message, "not a TLS handshake record (first byte=0x0a)");
}
