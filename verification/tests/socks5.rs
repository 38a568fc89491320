use ipv6_pool_proxy::error::{error, invalid_input, ErrorKind};
use ipv6_pool_proxy::net::{IpAddr, SocketAddr};
use ipv6_pool_proxy::route::TargetAddr;
use ipv6_pool_proxy::socks5::{
    connect_reply, socks5_error_code, socks5_reply, step, Auth, Next, Stage,
};

enum End {
    Wait(Stage),
    Connect(TargetAddr, usize),
    Fail(ErrorKind, String),
}

fn talk(auth: Option<&Auth>, input: &[u8]) -> (Vec<u8>, End) {
    let mut stage = Stage::Greeting;
    let mut at = 0;
    let mut sent: Vec<u8> = Vec::new();
    loop {
        let need = stage.need();
        if input.len() - at < need {
            return (sent, End::Wait(stage));
        }
        let s = step(stage, auth, &input[at..at + need]);
        at += need;
        sent.extend(s.reply);
        match s.next {
            Next::Read(next) => stage = next,
            Next::Connect(target) => return (sent, End::Connect(target, at)),
            Next::Fail(e) => return (sent, End::Fail(e.kind, e.message)),
        }
    }
}

fn login() -> Auth {
    Auth { username: b"alice".to_vec(), password: b"secret".to_vec() }
}

fn failed(auth: Option<&Auth>, input: &[u8]) -> (Vec<u8>, ErrorKind, String) {
    match talk(auth, input) {
        (sent, End::Fail(kind, message)) => (sent, kind, message),
        _ => panic!("it did not fail"),
    }
}

fn reply(code: u8) -> Vec<u8> {
    let mut out: Vec<u8> = vec![5, code, 0, 4];
    out.extend([0u8; 18]);
    out
}

#[test]
fn ipv4_request_without_login() {
    let input = [5, 1, 0, 5, 1, 0, 1, 1, 2, 3, 4, 0x01, 0xbb, 99];
    match talk(None, &input) {
        (sent, End::Connect(TargetAddr::Ip(addr), at)) => {
            assert_eq!(sent, vec![5, 0]);
            assert_eq!(addr, SocketAddr::V4 { ip: 0x0102_0304, port: 443 });
            assert_eq!(at, 13);
        }
        _ => panic!(),
    }
}

#[test]
fn ipv6_request_without_login() {
    let mut input: Vec<u8> = vec![5, 2, 1, 0, 5, 1, 0, 4];
    input.extend([0x20, 0x01, 0x0d, 0xb8, 0, 0, 0, 0, 0, 0, 0, 0, 0, 0, 0, 1, 0x1f, 0x90]);
    match talk(None, &input) {
        (sent, End::Connect(TargetAddr::Ip(addr), _)) => {
            assert_eq!(sent, vec![5, 0]);
            let ip = IpAddr::V6(0x2001_0db8_0000_0000_0000_0000_0000_0001);
            assert_eq!(addr, SocketAddr::new(ip, 8080));
        }
        _ => panic!(),
    }
}

#[test]
fn name_request_without_login() {
    let mut input: Vec<u8> = vec![5, 1, 0, 5, 1, 0, 3, 11];
    input.extend(b"Example.org");
    input.extend([0, 80]);
    match talk(None, &input) {
        (_, End::Connect(TargetAddr::Domain(name, port), _)) => {
            assert_eq!(name, "Example.org");
            assert_eq!(port, 80);
        }
        _ => panic!(),
    }
    match talk(None, &[5, 1, 0, 5, 1, 0, 3, 0, 1, 0]) {
        (_, End::Connect(TargetAddr::Domain(name, port), _)) => {
            assert_eq!(name, "");
            assert_eq!(port, 256);
        }
        _ => panic!(),
    }
}

#[test]
fn right_login_is_served() {
    let auth = login();
    let mut input: Vec<u8> = vec![5, 2, 0, 2, 1, 5];
    input.extend(b"alice");
    input.push(6);
    input.extend(b"secret");
    input.extend([5, 1, 0, 1, 1, 2, 3, 4, 0, 80]);
    match talk(Some(&auth), &input) {
        (sent, End::Connect(TargetAddr::Ip(addr), _)) => {
            assert_eq!(sent, vec![5, 2, 1, 0]);
            assert_eq!(addr, SocketAddr::V4 { ip: 0x0102_0304, port: 80 });
        }
        _ => panic!(),
    }
    for n in 0..input.len() {
        assert!(matches!(talk(Some(&auth), &input[..n]), (_, End::Wait(_))));
    }
}

#[test]
fn wrong_logins_are_refused() {
    let auth = login();
    for (user, pass) in [
        ("alice", "secreT"),
        ("alicia", "secret"),
        ("alic", "secret"),
        ("alice", ""),
        ("", ""),
        ("secret", "alice"),
    ] {
        let mut input: Vec<u8> = vec![5, 1, 2, 1, user.len() as u8];
        input.extend(user.as_bytes());
        input.push(pass.len() as u8);
        input.extend(pass.as_bytes());
        input.extend([5, 1, 0, 1, 1, 2, 3, 4, 0, 80]);
        let (sent, kind, message) = failed(Some(&auth), &input);
        assert_eq!(sent, vec![5, 2, 1, 1]);
        assert_eq!(kind, ErrorKind::PermissionDenied);
        assert_eq!(message, "invalid username or password");
    }
}

#[test]
fn methods_that_do_not_fit_are_refused() {
    let auth = login();
    let (sent, kind, message) = failed(Some(&auth), &[5, 2, 0, 1]);
    assert_eq!((sent, kind), (vec![5, 0xff], ErrorKind::PermissionDenied));
    assert_eq!(message, "client does not support username/password auth");
    let (sent, kind, message) = failed(None, &[5, 1, 2]);
    assert_eq!((sent, kind), (vec![5, 0xff], ErrorKind::PermissionDenied));
    assert_eq!(message, "client does not support no-auth mode");
}

#[test]
fn malformed_bytes_are_refused() {
    let (sent, kind, message) = failed(None, &[4, 1]);
    assert_eq!((sent, kind), (vec![], ErrorKind::InvalidInput));
    assert_eq!(message, "invalid SOCKS version");
    let (sent, _, message) = failed(None, &[5, 0]);
    assert_eq!((sent, message.as_str()), (vec![], "SOCKS5 client sent no auth methods"));
    let auth = login();
    let (sent, kind, message) = failed(Some(&auth), &[5, 1, 2, 5, 5]);
    assert_eq!((sent, kind), (vec![5, 2, 1, 1], ErrorKind::InvalidInput));
    assert_eq!(message, "invalid username/password auth version");
    for head in [[4, 1, 0, 1], [5, 1, 1, 1], [4, 2, 0, 9]] {
        let mut input: Vec<u8> = vec![5, 1, 0];
        input.extend(head);
        let (sent, kind, message) = failed(None, &input);
        assert_eq!((sent, kind), (vec![5, 0], ErrorKind::InvalidInput));
        assert_eq!(message, "invalid SOCKS5 request header");
    }
    let (sent, kind, message) = failed(None, &[5, 1, 0, 5, 1, 0, 3, 2, 0xff, 0xff, 0, 80]);
    assert_eq!((sent, kind), (vec![5, 0], ErrorKind::InvalidInput));
    assert_eq!(message, "SOCKS5 domain is not valid UTF-8");
}

#[test]
fn other_requests_are_answered_with_their_code() {
    let mut expected: Vec<u8> = vec![5, 0];
    expected.extend(reply(7));
    let (sent, kind, message) = failed(None, &[5, 1, 0, 5, 2, 0, 9]);
    assert_eq!((sent, kind), (expected, ErrorKind::Unsupported));
    assert_eq!(message, "only SOCKS5 CONNECT is supported");
    let mut expected: Vec<u8> = vec![5, 0];
    expected.extend(reply(8));
    let (sent, kind, message) = failed(None, &[5, 1, 0, 5, 1, 0, 2]);
    assert_eq!((sent, kind), (expected, ErrorKind::Unsupported));
    assert_eq!(message, "unsupported SOCKS5 address type");
}

#[test]
fn replies_after_the_connection_was_tried() {
    assert_eq!(socks5_reply(3), reply(3));
    assert_eq!(connect_reply(None), reply(0));
    for (kind, code) in [
        (ErrorKind::PermissionDenied, 2),
        (ErrorKind::ConnectionRefused, 5),
        (ErrorKind::TimedOut, 6),
        (ErrorKind::Unsupported, 8),
        (ErrorKind::AddrNotAvailable, 4),
        (ErrorKind::NotFound, 4),
        (ErrorKind::InvalidInput, 1),
        (ErrorKind::InvalidData, 1),
        (ErrorKind::Other, 1),
    ] {
        let e = error(kind, "x");
        assert_eq!(socks5_error_code(&e), code);
        assert_eq!(connect_reply(Some(&e)), reply(code));
    }
    let e = invalid_input("why");
    assert_eq!((e.kind, e.message.as_str()), (ErrorKind::InvalidInput, "why"));
}
