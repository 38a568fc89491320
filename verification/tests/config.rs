use ipv6_pool_proxy::config::{
    add_listen, parse_args, parse_bool, Addrs, Command, Config, Flag, Options, RawArgs,
};
use ipv6_pool_proxy::error::{error, Error, ErrorKind};
use ipv6_pool_proxy::net::{IpAddr, SocketAddr};
use ipv6_pool_proxy::prefix::Ipv6Prefix;
use ipv6_pool_proxy::route::Mode;
use ipv6_pool_proxy::socks5::Auth;

const DB8: u128 = 0x2001_0db8_0000_0000_0000_0000_0000_0000;

fn v4(ip: u32, port: u16) -> SocketAddr {
    SocketAddr::V4 { ip, port }
}

fn v6(ip: u128, port: u16) -> SocketAddr {
    SocketAddr::V6 { ip, port, flowinfo: 0, scope_id: 0 }
}

fn args(words: &[&str]) -> Vec<String> {
    words.iter().map(|w| w.to_string()).collect()
}

fn run(words: &[&str]) -> Options {
    match parse_args(&args(words)) {
        Ok(Command::Run(options)) => options,
        Ok(Command::Help) => panic!("help"),
        Err(e) => panic!("{}", e.message),
    }
}

fn refusal(words: &[&str]) -> String {
    match parse_args(&args(words)) {
        Err(e) => {
            assert_eq!(e.kind, ErrorKind::InvalidInput);
            e.message
        }
        Ok(_) => panic!("{:?} was read", words),
    }
}

fn text(content: &str) -> Option<Result<String, Error>> {
    Some(Ok(content.to_string()))
}

fn stopped(r: Result<Config, Error>) -> (ErrorKind, String) {
    match r {
        Ok(_) => panic!("it was accepted"),
        Err(e) => (e.kind, e.message),
    }
}

const DNS: [&str; 6] = ["-dns", "1.2.3.4:53", "-p", "::/0", "-w", "ip.conf"];

#[test]
fn block_alone_runs_the_proxy_at_the_usual_port() {
    let o = run(&["-p", "2001:db8::/32"]);
    assert_eq!(o.proxy_listens, vec![v4(0, 1080)]);
    assert_eq!(o.dns_listens, vec![]);
    assert_eq!(o.prefix, Ipv6Prefix { network: DB8, prefix_len: 32 });
    assert!(o.auth.is_none());
    assert!(!o.ipv4_pass_through);
    assert!(o.domain_config.is_none());
    assert!(o.whitelist.is_none());
    assert!(!o.needs_domain_rules());
}

#[test]
fn dns_listeners_alone() {
    let o = run(&[
        "-dns", "1.2.3.4:53", "--dns", "[2001:db8::1]:53", "-p", "2001:db8::/32", "-c", "d.conf",
        "-u", "alice:secret",
    ]);
    assert_eq!(o.dns_listens, vec![v4(0x0102_0304, 53), v6(DB8 + 1, 53)]);
    assert_eq!(o.proxy_listens, vec![]);
    assert_eq!(o.domain_config.as_deref(), Some("d.conf"));
    assert!(o.auth.is_none());
    assert!(o.needs_domain_rules());
}

#[test]
fn dns_and_proxy_together() {
    let o = run(&[
        "-dns", "1.2.3.4:53", "-proxy", "0.0.0.0:11001", "-u", "alice:sec:ret", "-p",
        "2001:db8::/32", "-ipv4_pass_through", "True", "-w", "ip.conf", "--proxy", "[::]:11001",
    ]);
    assert_eq!(o.dns_listens, vec![v4(0x0102_0304, 53)]);
    assert_eq!(o.proxy_listens, vec![v4(0, 11001), v6(0, 11001)]);
    let auth = o.auth.unwrap();
    assert_eq!(auth.username, b"alice".to_vec());
    assert_eq!(auth.password, b"sec:ret".to_vec());
    assert!(o.ipv4_pass_through);
    assert_eq!(o.whitelist.as_deref(), Some("ip.conf"));
}

#[test]
fn plain_listeners_belong_to_the_mode() {
    let o = run(&["-m", "dns", "-l", "1.2.3.4:53", "-p", "::/0", "-u", "a:b"]);
    assert_eq!(o.dns_listens, vec![v4(0x0102_0304, 53)]);
    assert_eq!(o.proxy_listens, vec![]);
    assert!(o.auth.is_none());
    let o = run(&["--listen", "1.2.3.4:53", "-p", "::/0", "-u", "a:b"]);
    assert_eq!(o.proxy_listens, vec![v4(0x0102_0304, 53)]);
    assert!(o.auth.is_some());
    let o = run(&["--mode", "Dns", "-p", "::/0"]);
    assert_eq!(o.dns_listens, vec![v4(0, 1080)]);
}

#[test]
fn scope_of_a_listener_is_kept() {
    let o = run(&["-dns", "[fe80::1%7]:53", "-p", "::/0"]);
    let ip = 0xfe80_0000_0000_0000_0000_0000_0000_0001;
    assert_eq!(o.dns_listens, vec![SocketAddr::V6 { ip, port: 53, flowinfo: 0, scope_id: 7 }]);
}

#[test]
fn listener_given_twice_is_refused() {
    assert_eq!(
        refusal(&["-dns", "1.2.3.4:53", "-dns", "1.2.3.4:53", "-p", "::/0"]),
        "duplicate -dns/--dns address: 1.2.3.4:53"
    );
    assert_eq!(
        refusal(&["-proxy", "[::0]:1", "-proxy", "[::]:1", "-p", "::/0"]),
        "duplicate -proxy/--proxy address: [::]:1"
    );
    assert_eq!(
        refusal(&["-l", "1.2.3.4:53", "-l", "1.2.3.4:53", "-p", "::/0"]),
        "duplicate -l/--listen address: 1.2.3.4:53"
    );
    run(&["-dns", "1.2.3.4:53", "-proxy", "1.2.3.4:53", "-p", "::/0"]);
}

#[test]
fn malformed_listeners_are_refused() {
    for text in ["1.2.3.4", "localhost:53", "::1:53", "[::1]", "1.2.3.4:65536", ""] {
        assert_eq!(
            refusal(&["-dns", text, "-p", "::/0"]),
            "invalid listen address, e.g. 0.0.0.0:1080"
        );
    }
}

#[test]
fn block_is_required() {
    assert_eq!(refusal(&[]), "missing required -p/--prefix IPv6 CIDR");
    assert_eq!(refusal(&["-dns", "x"]), "invalid listen address, e.g. 0.0.0.0:1080");
}

#[test]
fn malformed_values_are_refused() {
    assert_eq!(refusal(&["-u", "alice"]), "-u/--user must be formatted as user:pass");
    assert_eq!(refusal(&["-u", ":b"]), "username and password must not be empty");
    assert_eq!(refusal(&["-u", "a:"]), "username and password must not be empty");
    assert_eq!(refusal(&["-p", "::1"]), "IPv6 prefix must be in CIDR format, e.g. 2001:470:19:226::/64");
    assert_eq!(refusal(&["-m", "x"]), "-m/--mode must be proxy or dns");
    assert_eq!(refusal(&["-ipv4_pass_through", "yes"]), "boolean value must be true or false");
    assert_eq!(refusal(&["-s", "1.2.3.4:1"]), "unknown argument: -s");
    assert_eq!(refusal(&["-c", "a", "b"]), "unknown argument: b");
}

#[test]
fn missing_values_are_refused() {
    for (flag, name) in [
        ("-dns", "-dns/--dns"),
        ("--proxy", "-proxy/--proxy"),
        ("-l", "-l/--listen"),
        ("-u", "-u/--user"),
        ("--prefix", "-p/--prefix"),
        ("-m", "-m/--mode"),
        ("-c", "-c/--config"),
        ("--ipv4_pass_through", "-ipv4_pass_through/--ipv4_pass_through"),
        ("-w", "-w/--whitelist"),
    ] {
        assert_eq!(refusal(&["-c", "d", flag]), format!("missing value for {}", name));
    }
}

#[test]
fn help_comes_before_later_mistakes() {
    assert!(matches!(parse_args(&args(&["-h"])), Ok(Command::Help)));
    assert!(matches!(parse_args(&args(&["-c", "d", "--help", "-x"])), Ok(Command::Help)));
    assert_eq!(refusal(&["-x", "-h"]), "unknown argument: -x");
    assert_eq!(run(&["-c", "-h", "-p", "::/0"]).domain_config.as_deref(), Some("-h"));
}

#[test]
fn last_value_counts() {
    let o = run(&["-p", "::/0", "-w", "x", "-p", "2001:db8::/32", "-c", "a", "-c", "b", "-w", "y"]);
    assert_eq!(o.whitelist.as_deref(), Some("y"));
    assert_eq!(o.prefix.prefix_len, 32);
    assert_eq!(o.domain_config.as_deref(), Some("b"));
}

#[test]
fn truth_values() {
    assert_eq!(parse_bool("true").ok(), Some(true));
    assert_eq!(parse_bool("FALSE").ok(), Some(false));
    assert!(parse_bool("1").is_err());
    assert!(parse_bool(" true").is_err());
}

#[test]
fn listeners_that_were_read() {
    let mut listens = vec![v4(1, 1)];
    assert!(add_listen(&mut listens, Some(v4(1, 2)), Flag::Dns).is_ok());
    assert!(add_listen(&mut listens, Some(v4(1, 1)), Flag::Dns).is_err());
    assert!(add_listen(&mut listens, None, Flag::Dns).is_err());
    assert_eq!(listens, vec![v4(1, 1), v4(1, 2)]);
}

#[test]
fn options_from_what_was_read() {
    let raw = RawArgs {
        dns: vec![],
        proxy: vec![],
        listen: vec![],
        auth: Some(Auth { username: vec![1], password: vec![2] }),
        prefix: Some(Ipv6Prefix { network: 0, prefix_len: 0 }),
        mode: Mode::Dns,
        domain_config: None,
        ipv4_pass_through: true,
        whitelist: None,
    };
    let addrs = Addrs {
        dns: vec![Some(v4(1, 1))],
        proxy: vec![Some(v4(2, 2))],
        plain: vec![Some(v6(3, 3))],
    };
    let o = match raw.into_options(addrs) {
        Ok(o) => o,
        Err(e) => panic!("{}", e.message),
    };
    assert_eq!(o.dns_listens, vec![v4(1, 1), v6(3, 3)]);
    assert_eq!(o.proxy_listens, vec![v4(2, 2)]);
    assert!(o.auth.is_some());
}

#[test]
fn whitelist_decides_who_may_connect() {
    let open = run(&["-p", "::/0"]).configure(None, None).unwrap();
    assert!(open.allows(IpAddr::V4(1)));
    assert!(open.allows(IpAddr::V6(1)));
    assert_eq!(open.whitelist_state(), "disabled");
    let with_list = ["-p", "::/0", "-w", "ip.conf"];
    let shut = run(&with_list).configure(None, text("")).unwrap();
    assert_eq!(shut.whitelist.as_ref().map(|l| l.len()), Some(0));
    assert!(!shut.allows(IpAddr::V4(0x7f00_0001)));
    assert_eq!(shut.whitelist_state(), "enabled (0 entries)");
    let content = "127.0.0.1\n::1\n10.0.0.0/8\n::/0";
    let some = run(&with_list).configure(None, text(content)).unwrap();
    assert!(some.allows(IpAddr::V4(0x7f00_0001)));
    assert!(some.allows(IpAddr::V6(0xffff_7f00_0001)));
    assert!(!some.allows(IpAddr::V4(0x7f00_0002)));
    assert_eq!(some.whitelist_state(), "enabled (4 entries)");
}

#[test]
fn domain_file_gives_the_rules() {
    let c = run(&DNS).configure(text("suffix:a.org"), text("")).unwrap();
    assert!(c.domain_rules.is_match("www.a.org"));
    let c = run(&["-p", "::/0", "-u", "a:b"]).configure(None, None).unwrap();
    assert!(!c.domain_rules.is_match("www.a.org"));
    assert!(c.auth.is_some());
    assert_eq!(c.proxy_listens, vec![v4(0, 1080)]);
    assert_eq!(c.prefix, Ipv6Prefix { network: 0, prefix_len: 0 });
}

#[test]
fn files_that_cannot_be_used_stop_the_program() {
    let gone = || Some(Err(error(ErrorKind::NotFound, "gone")));
    assert_eq!(
        stopped(run(&DNS).configure(text("x"), gone())),
        (ErrorKind::NotFound, "gone".to_string())
    );
    assert_eq!(
        stopped(run(&DNS).configure(text("x"), text("y"))),
        (ErrorKind::InvalidInput, "invalid IP at whitelist line 1: y".to_string())
    );
    assert_eq!(
        stopped(run(&DNS).configure(gone(), text("y"))),
        (ErrorKind::NotFound, "gone".to_string())
    );
    for whitelist in [text(""), text("y"), gone()] {
        assert_eq!(
            stopped(run(&DNS).configure(text("tld:"), whitelist)),
            (ErrorKind::InvalidInput, "empty domain rule at line 1".to_string())
        );
    }
}

#[test]
fn wildcard_dns_listeners_are_found() {
    let c = run(&[
        "-dns", "0.0.0.0:53", "-dns", "1.2.3.4:53", "-dns", "[::]:53", "-proxy", "0.0.0.0:1", "-p",
        "::/0",
    ])
    .configure(text(""), None)
    .unwrap();
    assert_eq!(c.wildcard_dns_listens(), vec![v4(0, 53), v6(0, 53)]);
}
