//! The command line, and what the program runs with.
use crate::domain::DomainRules;
use crate::domain::lemma_spelled;
use crate::domain::rules_text;
use crate::domain::RulesView;
use crate::domain::spelled;
use crate::error::bad_input;
use crate::error::Error;
use crate::error::ErrorKind;
use crate::error::Failure;
use crate::error::invalid_input;
use crate::net::display_socket_addr;
use crate::net::IpAddr;
use crate::net::parse_socket_addr;
use crate::net::socket_addr_display;
use crate::net::socket_addr_text;
use crate::net::SocketAddr;
use crate::prefix::Ipv6Prefix;
use crate::prefix::prefix_text;
use crate::route::Mode;
use crate::route::mode_text;
use crate::socks5::Auth;
use crate::socks5::Login;
use crate::text::chars_of;
use crate::text::decimal;
use crate::text::law_split_once;
use crate::text::line_text;
use crate::text::lines;
use crate::text::lower;
use crate::text::lower_chars;
use crate::text::push_decimal;
use crate::text::spells;
use crate::text::split_once;
use crate::text::split_once_chars;
use crate::text::string_of;
use crate::whitelist::IpWhitelist;
use crate::whitelist::law_blank_lines_hold_no_entry;
use crate::whitelist::whitelist_text;
use crate::whitelist::WhitelistView;
use vstd::prelude::*;
use vstd::slice::slice_to_vec;
use vstd::utf8::encode_utf8;

verus! {

// --- Single values ---

/// What a truth value denotes.
pub open spec fn bool_text(value: Seq<char>) -> Result<bool, Failure> {
    if lower(value) == "true"@ {
        Ok(true)
    } else if lower(value) == "false"@ {
        Ok(false)
    } else {
        Err(bad_input("boolean value must be true or false"@))
    }
}

/// Reads a truth value.
pub fn parse_bool(value: &str) -> (r: Result<bool, Error>)
    ensures
        match r {
            Ok(b) => bool_text(value@) == Ok::<bool, Failure>(b),
            Err(e) => bool_text(value@) == Err::<bool, Failure>(e@),
        },
{
    let chars = chars_of(value);
    let word = lower_chars(chars.as_slice());
    if spells(word.as_slice(), "true") {
        Ok(true)
    } else if spells(word.as_slice(), "false") {
        Ok(false)
    } else {
        Err(invalid_input("boolean value must be true or false"))
    }
}

/// The login that `value` gives: a user name and a password with a colon
/// between them, neither of them empty.
pub open spec fn login_text(value: Seq<char>) -> Result<Login, Failure> {
    match split_once(value, ':') {
        None => Err(bad_input("-u/--user must be formatted as user:pass"@)),
        Some((username, password)) => if username.len() == 0 || password.len() == 0 {
            Err(bad_input("username and password must not be empty"@))
        } else {
            Ok(Login { username: encode_utf8(username), password: encode_utf8(password) })
        },
    }
}

impl Auth {
    /// Reads a login, such as `user:pass`.
    pub fn parse(value: &str) -> (r: Result<Self, Error>)
        ensures
            match r {
                Ok(auth) => login_text(value@) == Ok::<Login, Failure>(auth@),
                Err(e) => login_text(value@) == Err::<Login, Failure>(e@),
            },
    {
        let chars = chars_of(value);
        let (username, password) = match split_once_chars(chars.as_slice(), ':') {
            Some((username, password)) => (username, password),
            None => return Err(invalid_input("-u/--user must be formatted as user:pass")),
        };
        if username.len() == 0 || password.len() == 0 {
            return Err(invalid_input("username and password must not be empty"));
        }
        let username = string_of(username);
        let password = string_of(password);
        Ok(
            Auth {
                username: slice_to_vec(username.as_str().as_bytes()),
                password: slice_to_vec(password.as_str().as_bytes()),
            },
        )
    }
}

// --- Flags ---

/// What an argument of the command line asks for.
#[derive(Clone, Copy, Debug, PartialEq, Eq, Structural)]
pub enum Flag {
    /// A listener for DNS and the server name proxy.
    Dns,
    /// A listener for the SOCKS5 proxy.
    Proxy,
    /// A listener for the service that the mode names.
    Listen,
    /// The login that SOCKS5 clients have to give.
    User,
    /// The block that outbound addresses are drawn from.
    Prefix,
    /// The service that plain listeners belong to.
    Mode,
    /// The domain file.
    Config,
    /// Whether IPv4 targets are reached from the default address.
    PassThrough,
    /// The whitelist file.
    Whitelist,
    /// How to use the program.
    Help,
}

/// The flag that `arg` spells.
pub open spec fn flag_text(arg: Seq<char>) -> Option<Flag> {
    if arg == "-dns"@ || arg == "--dns"@ {
        Some(Flag::Dns)
    } else if arg == "-proxy"@ || arg == "--proxy"@ {
        Some(Flag::Proxy)
    } else if arg == "-l"@ || arg == "--listen"@ {
        Some(Flag::Listen)
    } else if arg == "-u"@ || arg == "--user"@ {
        Some(Flag::User)
    } else if arg == "-p"@ || arg == "--prefix"@ {
        Some(Flag::Prefix)
    } else if arg == "-m"@ || arg == "--mode"@ {
        Some(Flag::Mode)
    } else if arg == "-c"@ || arg == "--config"@ {
        Some(Flag::Config)
    } else if arg == "-ipv4_pass_through"@ || arg == "--ipv4_pass_through"@ {
        Some(Flag::PassThrough)
    } else if arg == "-w"@ || arg == "--whitelist"@ {
        Some(Flag::Whitelist)
    } else if arg == "-h"@ || arg == "--help"@ {
        Some(Flag::Help)
    } else {
        None
    }
}

/// Both spellings of a flag.
pub open spec fn flag_name(flag: Flag) -> Seq<char> {
    match flag {
        Flag::Dns => "-dns/--dns"@,
        Flag::Proxy => "-proxy/--proxy"@,
        Flag::Listen => "-l/--listen"@,
        Flag::User => "-u/--user"@,
        Flag::Prefix => "-p/--prefix"@,
        Flag::Mode => "-m/--mode"@,
        Flag::Config => "-c/--config"@,
        Flag::PassThrough => "-ipv4_pass_through/--ipv4_pass_through"@,
        Flag::Whitelist => "-w/--whitelist"@,
        Flag::Help => "-h/--help"@,
    }
}

fn read_flag(arg: &str) -> (flag: Option<Flag>)
    ensures
        flag == flag_text(arg@),
{
    let chars = chars_of(arg);
    let arg = chars.as_slice();
    if spells(arg, "-dns") || spells(arg, "--dns") {
        Some(Flag::Dns)
    } else if spells(arg, "-proxy") || spells(arg, "--proxy") {
        Some(Flag::Proxy)
    } else if spells(arg, "-l") || spells(arg, "--listen") {
        Some(Flag::Listen)
    } else if spells(arg, "-u") || spells(arg, "--user") {
        Some(Flag::User)
    } else if spells(arg, "-p") || spells(arg, "--prefix") {
        Some(Flag::Prefix)
    } else if spells(arg, "-m") || spells(arg, "--mode") {
        Some(Flag::Mode)
    } else if spells(arg, "-c") || spells(arg, "--config") {
        Some(Flag::Config)
    } else if spells(arg, "-ipv4_pass_through") || spells(arg, "--ipv4_pass_through") {
        Some(Flag::PassThrough)
    } else if spells(arg, "-w") || spells(arg, "--whitelist") {
        Some(Flag::Whitelist)
    } else if spells(arg, "-h") || spells(arg, "--help") {
        Some(Flag::Help)
    } else {
        None
    }
}

fn name_of_flag(flag: Flag) -> (name: &'static str)
    ensures
        name@ == flag_name(flag),
{
    match flag {
        Flag::Dns => "-dns/--dns",
        Flag::Proxy => "-proxy/--proxy",
        Flag::Listen => "-l/--listen",
        Flag::User => "-u/--user",
        Flag::Prefix => "-p/--prefix",
        Flag::Mode => "-m/--mode",
        Flag::Config => "-c/--config",
        Flag::PassThrough => "-ipv4_pass_through/--ipv4_pass_through",
        Flag::Whitelist => "-w/--whitelist",
        Flag::Help => "-h/--help",
    }
}

// --- The command line as it was given ---

/// The values that the command line gave.
#[derive(Debug)]
pub struct RawArgs {
    pub dns: Vec<String>,
    pub proxy: Vec<String>,
    pub listen: Vec<String>,
    pub auth: Option<Auth>,
    pub prefix: Option<Ipv6Prefix>,
    pub mode: Mode,
    pub domain_config: Option<String>,
    pub ipv4_pass_through: bool,
    pub whitelist: Option<String>,
}

/// The mathematical view of [`RawArgs`].
#[verifier::ext_equal]
pub struct RawView {
    pub dns: Seq<Seq<char>>,
    pub proxy: Seq<Seq<char>>,
    pub listen: Seq<Seq<char>>,
    pub login: Option<Login>,
    pub prefix: Option<Ipv6Prefix>,
    pub mode: Mode,
    pub domain_config: Option<Seq<char>>,
    pub ipv4_pass_through: bool,
    pub whitelist: Option<Seq<char>>,
}

/// The texts of some strings.
pub open spec fn texts(strings: Seq<String>) -> Seq<Seq<char>> {
    strings.map_values(|s: String| s@)
}

/// The text of an optional string.
pub open spec fn text_of(s: Option<String>) -> Option<Seq<char>> {
    match s {
        Some(s) => Some(s@),
        None => None,
    }
}

/// The login in an optional [`Auth`].
pub open spec fn login_of(auth: Option<Auth>) -> Option<Login> {
    match auth {
        Some(auth) => Some(auth@),
        None => None,
    }
}

impl View for RawArgs {
    type V = RawView;

    open spec fn view(&self) -> RawView {
        RawView {
            dns: texts(self.dns@),
            proxy: texts(self.proxy@),
            listen: texts(self.listen@),
            login: login_of(self.auth),
            prefix: self.prefix,
            mode: self.mode,
            domain_config: text_of(self.domain_config),
            ipv4_pass_through: self.ipv4_pass_through,
            whitelist: text_of(self.whitelist),
        }
    }
}

impl RawView {
    /// What holds before any argument is read.
    pub open spec fn initial() -> RawView {
        RawView {
            dns: Seq::empty(),
            proxy: Seq::empty(),
            listen: Seq::empty(),
            login: None,
            prefix: None,
            mode: Mode::Proxy,
            domain_config: None,
            ipv4_pass_through: false,
            whitelist: None,
        }
    }

    /// What holds once `flag` was given with `value`.
    pub open spec fn with(self, flag: Flag, value: Seq<char>) -> Result<RawView, Failure> {
        match flag {
            Flag::Dns => Ok(RawView { dns: self.dns.push(value), ..self }),
            Flag::Proxy => Ok(RawView { proxy: self.proxy.push(value), ..self }),
            Flag::Listen => Ok(RawView { listen: self.listen.push(value), ..self }),
            Flag::User => match login_text(value) {
                Ok(login) => Ok(RawView { login: Some(login), ..self }),
                Err(f) => Err(f),
            },
            Flag::Prefix => match prefix_text(value) {
                Ok(prefix) => Ok(RawView { prefix: Some(prefix), ..self }),
                Err(f) => Err(f),
            },
            Flag::Mode => match mode_text(value) {
                Ok(mode) => Ok(RawView { mode, ..self }),
                Err(f) => Err(f),
            },
            Flag::Config => Ok(RawView { domain_config: Some(value), ..self }),
            Flag::PassThrough => match bool_text(value) {
                Ok(b) => Ok(RawView { ipv4_pass_through: b, ..self }),
                Err(f) => Err(f),
            },
            Flag::Whitelist => Ok(RawView { whitelist: Some(value), ..self }),
            Flag::Help => Ok(self),
        }
    }
}

/// What the arguments `args` add to `raw`, from left to right: `None` if they
/// ask for help before anything is wrong with them.
pub open spec fn scan(args: Seq<Seq<char>>, raw: RawView) -> Result<Option<RawView>, Failure>
    decreases args.len(),
{
    if args.len() == 0 {
        Ok(Some(raw))
    } else {
        match flag_text(args[0]) {
            None => Err(bad_input("unknown argument: "@ + args[0])),
            Some(Flag::Help) => Ok(None),
            Some(flag) => if args.len() == 1 {
                Err(bad_input("missing value for "@ + flag_name(flag)))
            } else {
                match raw.with(flag, args[1]) {
                    Ok(raw) => scan(args.skip(2), raw),
                    Err(f) => Err(f),
                }
            },
        }
    }
}

impl RawArgs {
    fn initial() -> (raw: RawArgs)
        ensures
            raw@ == RawView::initial(),
            raw.prefix is None,
    {
        let raw = RawArgs {
            dns: Vec::new(),
            proxy: Vec::new(),
            listen: Vec::new(),
            auth: None,
            prefix: None,
            mode: Mode::Proxy,
            domain_config: None,
            ipv4_pass_through: false,
            whitelist: None,
        };
        assert(raw@ =~= RawView::initial());
        raw
    }

    fn give(self, flag: Flag, value: &str) -> (r: Result<RawArgs, Error>)
        requires
            self.prefix matches Some(p) ==> p.wf(),
        ensures
            match r {
                Ok(raw) => self@.with(flag, value@) == Ok::<RawView, Failure>(raw@) && (
                raw.prefix matches Some(p) ==> p.wf()),
                Err(e) => self@.with(flag, value@) == Err::<RawView, Failure>(e@),
            },
    {
        let ghost before = self@;
        let mut raw = self;
        match flag {
            Flag::Dns => raw.dns.push(value.to_string()),
            Flag::Proxy => raw.proxy.push(value.to_string()),
            Flag::Listen => raw.listen.push(value.to_string()),
            Flag::User => match Auth::parse(value) {
                Ok(auth) => raw.auth = Some(auth),
                Err(e) => return Err(e),
            },
            Flag::Prefix => match Ipv6Prefix::parse(value) {
                Ok(prefix) => raw.prefix = Some(prefix),
                Err(e) => return Err(e),
            },
            Flag::Mode => match Mode::parse(value) {
                Ok(mode) => raw.mode = mode,
                Err(e) => return Err(e),
            },
            Flag::Config => raw.domain_config = Some(value.to_string()),
            Flag::PassThrough => match parse_bool(value) {
                Ok(b) => raw.ipv4_pass_through = b,
                Err(e) => return Err(e),
            },
            Flag::Whitelist => raw.whitelist = Some(value.to_string()),
            Flag::Help => {},
        }
        assert(raw@ =~= before.with(flag, value@)->Ok_0);
        Ok(raw)
    }
}

// --- Listeners ---

/// `listens` and `addr` behind them, where an address was read and is not yet
/// among them.
pub open spec fn with_listen(
    listens: Seq<SocketAddr>,
    addr: Option<SocketAddr>,
    flag: Flag,
) -> Result<Seq<SocketAddr>, Failure> {
    match addr {
        None => Err(bad_input("invalid listen address, e.g. 0.0.0.0:1080"@)),
        Some(addr) => if listens.contains(addr) {
            Err(
                bad_input(
                    "duplicate "@ + flag_name(flag) + " address: "@ + socket_addr_display(addr),
                ),
            )
        } else {
            Ok(listens.push(addr))
        },
    }
}

/// `listens` and `addrs` behind them, one after another.
pub open spec fn with_listens(
    listens: Seq<SocketAddr>,
    addrs: Seq<Option<SocketAddr>>,
    flag: Flag,
) -> Result<Seq<SocketAddr>, Failure>
    decreases addrs.len(),
{
    if addrs.len() == 0 {
        Ok(listens)
    } else {
        match with_listen(listens, addrs[0], flag) {
            Ok(more) => with_listens(more, addrs.skip(1), flag),
            Err(f) => Err(f),
        }
    }
}

/// What each of some texts denotes as an address.
pub open spec fn addrs_text(values: Seq<Seq<char>>) -> Seq<Option<SocketAddr>> {
    values.map_values(|value: Seq<char>| socket_addr_text(value))
}

fn parse_addrs(values: &Vec<String>) -> (addrs: Vec<Option<SocketAddr>>)
    ensures
        addrs@ == addrs_text(texts(values@)),
{
    let mut addrs: Vec<Option<SocketAddr>> = Vec::new();
    for i in 0..values.len()
        invariant
            addrs@ == addrs_text(texts(values@)).take(i as int),
    {
        addrs.push(parse_socket_addr(values[i].as_str()));
    }
    addrs
}

/// Adds a listener: `addr` is what was read as its address, `flag` gave it.
pub fn add_listen(listens: &mut Vec<SocketAddr>, addr: Option<SocketAddr>, flag: Flag) -> (r: Result<
    (),
    Error,
>)
    ensures
        match r {
            Ok(()) => with_listen(old(listens)@, addr, flag) == Ok::<Seq<SocketAddr>, Failure>(
                final(listens)@,
            ),
            Err(e) => with_listen(old(listens)@, addr, flag) == Err::<Seq<SocketAddr>, Failure>(e@)
                && final(listens)@ == old(listens)@,
        },
{
    let new = match addr {
        Some(new) => new,
        None => return Err(invalid_input("invalid listen address, e.g. 0.0.0.0:1080")),
    };
    for i in 0..listens.len()
        invariant
            addr == Some(new),
            listens@ == old(listens)@,
            forall|j: int| 0 <= j < i ==> listens@[j] != new,
    {
        if listens[i] == new {
            assert(listens@.contains(new));
            let mut message = "duplicate ".to_string();
            message.append(name_of_flag(flag));
            message.append(" address: ");
            message.append(display_socket_addr(new).as_str());
            return Err(Error { kind: ErrorKind::InvalidInput, message });
        }
    }
    listens.push(new);
    Ok(())
}

fn add_listens(
    listens: &mut Vec<SocketAddr>,
    addrs: &Vec<Option<SocketAddr>>,
    flag: Flag,
) -> (r: Result<(), Error>)
    ensures
        match r {
            Ok(()) => with_listens(old(listens)@, addrs@, flag) == Ok::<Seq<SocketAddr>, Failure>(
                final(listens)@,
            ),
            Err(e) => with_listens(old(listens)@, addrs@, flag) == Err::<Seq<SocketAddr>, Failure>(
                e@,
            ),
        },
{
    assert(addrs@.skip(0) == addrs@);
    for i in 0..addrs.len()
        invariant
            with_listens(listens@, addrs@.skip(i as int), flag) == with_listens(
                old(listens)@,
                addrs@,
                flag,
            ),
    {
        assert(addrs@.skip(i as int)[0] == addrs@[i as int]);
        assert(addrs@.skip(i as int).skip(1) == addrs@.skip(i + 1));
        match add_listen(listens, addrs[i], flag) {
            Ok(()) => {},
            Err(e) => return Err(e),
        }
    }
    Ok(())
}

// --- The command line as it is meant ---

/// What the program was asked to do, the files not yet read.
#[derive(Debug)]
pub struct Options {
    pub dns_listens: Vec<SocketAddr>,
    pub proxy_listens: Vec<SocketAddr>,
    pub auth: Option<Auth>,
    pub prefix: Ipv6Prefix,
    pub domain_config: Option<String>,
    pub ipv4_pass_through: bool,
    pub whitelist: Option<String>,
}

/// The mathematical view of [`Options`].
#[verifier::ext_equal]
pub struct OptionsView {
    pub dns_listens: Seq<SocketAddr>,
    pub proxy_listens: Seq<SocketAddr>,
    pub login: Option<Login>,
    pub prefix: Ipv6Prefix,
    pub domain_config: Option<Seq<char>>,
    pub ipv4_pass_through: bool,
    pub whitelist: Option<Seq<char>>,
}

impl View for Options {
    type V = OptionsView;

    open spec fn view(&self) -> OptionsView {
        OptionsView {
            dns_listens: self.dns_listens@,
            proxy_listens: self.proxy_listens@,
            login: login_of(self.auth),
            prefix: self.prefix,
            domain_config: text_of(self.domain_config),
            ipv4_pass_through: self.ipv4_pass_through,
            whitelist: text_of(self.whitelist),
        }
    }
}

/// What the command line asks for.
#[derive(Debug)]
pub enum Command {
    /// To say how to use the program.
    Help,
    /// To run.
    Run(Options),
}

/// The plain listeners: one at the usual port where no listener was given.
pub open spec fn plain_listens(raw: RawView) -> Seq<Seq<char>> {
    if raw.dns.len() == 0 && raw.proxy.len() == 0 && raw.listen.len() == 0 {
        seq!["0.0.0.0:1080"@]
    } else {
        raw.listen
    }
}

/// What the listener arguments were read as: those for DNS, those for the proxy
/// and the plain ones.
#[derive(Debug)]
pub struct Addrs {
    pub dns: Vec<Option<SocketAddr>>,
    pub proxy: Vec<Option<SocketAddr>>,
    pub plain: Vec<Option<SocketAddr>>,
}

/// The mathematical view of [`Addrs`].
#[verifier::ext_equal]
pub struct AddrsView {
    pub dns: Seq<Option<SocketAddr>>,
    pub proxy: Seq<Option<SocketAddr>>,
    pub plain: Seq<Option<SocketAddr>>,
}

impl View for Addrs {
    type V = AddrsView;

    open spec fn view(&self) -> AddrsView {
        AddrsView { dns: self.dns@, proxy: self.proxy@, plain: self.plain@ }
    }
}

/// The listeners of DNS and of the proxy. Plain listeners belong to the service
/// `mode`.
pub open spec fn listeners(mode: Mode, addrs: AddrsView) -> Result<
    (Seq<SocketAddr>, Seq<SocketAddr>),
    Failure,
> {
    match with_listens(Seq::empty(), addrs.dns, Flag::Dns) {
        Err(f) => Err(f),
        Ok(dns) => match with_listens(Seq::empty(), addrs.proxy, Flag::Proxy) {
            Err(f) => Err(f),
            Ok(proxy) => match mode {
                Mode::Dns => match with_listens(dns, addrs.plain, Flag::Listen) {
                    Err(f) => Err(f),
                    Ok(dns) => Ok((dns, proxy)),
                },
                Mode::Proxy => match with_listens(proxy, addrs.plain, Flag::Listen) {
                    Err(f) => Err(f),
                    Ok(proxy) => Ok((dns, proxy)),
                },
            },
        },
    }
}

/// What the values of the command line mean, once its listener arguments were
/// read as `addrs`. A login only counts where the proxy runs.
pub open spec fn options_from(raw: RawView, addrs: AddrsView) -> Result<OptionsView, Failure> {
    match (listeners(raw.mode, addrs), raw.prefix) {
        (Err(f), _) => Err(f),
        (Ok(_), None) => Err(bad_input("missing required -p/--prefix IPv6 CIDR"@)),
        (Ok((dns_listens, proxy_listens)), Some(prefix)) => Ok(
            OptionsView {
                dns_listens,
                proxy_listens,
                login: if proxy_listens.len() > 0 {
                    raw.login
                } else {
                    None
                },
                prefix,
                domain_config: raw.domain_config,
                ipv4_pass_through: raw.ipv4_pass_through,
                whitelist: raw.whitelist,
            },
        ),
    }
}

/// What the listener arguments of `raw` denote.
pub open spec fn raw_addrs(raw: RawView) -> AddrsView {
    AddrsView {
        dns: addrs_text(raw.dns),
        proxy: addrs_text(raw.proxy),
        plain: addrs_text(plain_listens(raw)),
    }
}

/// What the command line asks for: `None` is help.
pub open spec fn command_text(args: Seq<Seq<char>>) -> Result<Option<OptionsView>, Failure> {
    match scan(args, RawView::initial()) {
        Err(f) => Err(f),
        Ok(None) => Ok(None),
        Ok(Some(raw)) => match options_from(raw, raw_addrs(raw)) {
            Ok(options) => Ok(Some(options)),
            Err(f) => Err(f),
        },
    }
}

/// `r` as the specifications speak of it.
pub open spec fn command_result(r: Result<Command, Error>) -> Result<
    Option<OptionsView>,
    Failure,
> {
    match r {
        Ok(Command::Help) => Ok(None),
        Ok(Command::Run(options)) => Ok(Some(options@)),
        Err(e) => Err(e@),
    }
}

/// What `read_args` found, as the specifications speak of it.
spec fn raw_result(r: Result<Option<RawArgs>, Error>) -> Result<Option<RawView>, Failure> {
    match r {
        Ok(Some(raw)) => Ok(Some(raw@)),
        Ok(None) => Ok(None),
        Err(e) => Err(e@),
    }
}

fn read_args(args: &Vec<String>) -> (r: Result<Option<RawArgs>, Error>)
    ensures
        raw_result(r) == scan(texts(args@), RawView::initial()),
        r matches Ok(Some(raw)) ==> (raw.prefix matches Some(p) ==> p.wf()),
{
    let ghost all = texts(args@);
    let mut raw = RawArgs::initial();
    let mut i: usize = 0;
    assert(all.skip(0) == all);
    while i < args.len()
        invariant
            i <= args@.len(),
            all == texts(args@),
            scan(all.skip(i as int), raw@) == scan(all, RawView::initial()),
            raw.prefix matches Some(p) ==> p.wf(),
        decreases args@.len() - i,
    {
        assert(all.skip(i as int)[0] == args@[i as int]@);
        let flag = match read_flag(args[i].as_str()) {
            None => {
                let mut message = "unknown argument: ".to_string();
                message.append(args[i].as_str());
                return Err(Error { kind: ErrorKind::InvalidInput, message });
            },
            Some(Flag::Help) => return Ok(None),
            Some(flag) => flag,
        };
        if args.len() - i == 1 {
            let mut message = "missing value for ".to_string();
            message.append(name_of_flag(flag));
            return Err(Error { kind: ErrorKind::InvalidInput, message });
        }
        assert(all.skip(i as int)[1] == args@[i + 1]@);
        assert(all.skip(i as int).skip(2) == all.skip(i + 2));
        raw = match raw.give(flag, args[i + 1].as_str()) {
            Ok(raw) => raw,
            Err(e) => return Err(e),
        };
        i += 2;
    }
    Ok(Some(raw))
}

/// `r` as the specifications speak of it.
pub open spec fn options_result(r: Result<Options, Error>) -> Result<OptionsView, Failure> {
    match r {
        Ok(options) => Ok(options@),
        Err(e) => Err(e@),
    }
}

impl RawArgs {
    /// Reads the listener arguments.
    fn read_addrs(&self) -> (addrs: Addrs)
        ensures
            addrs@ == raw_addrs(self@),
    {
        let plain = if self.dns.len() == 0 && self.proxy.len() == 0 && self.listen.len() == 0 {
            let usual = vec!["0.0.0.0:1080".to_string()];
            assert(texts(usual@) =~= plain_listens(self@));
            parse_addrs(&usual)
        } else {
            parse_addrs(&self.listen)
        };
        Addrs { dns: parse_addrs(&self.dns), proxy: parse_addrs(&self.proxy), plain }
    }

    /// What the values of the command line mean, once its listener arguments
    /// were read as `addrs`.
    pub fn into_options(self, addrs: Addrs) -> (r: Result<Options, Error>)
        ensures
            options_result(r) == options_from(self@, addrs@),
    {
        let mut dns_listens: Vec<SocketAddr> = Vec::new();
        let mut proxy_listens: Vec<SocketAddr> = Vec::new();
        if let Err(e) = add_listens(&mut dns_listens, &addrs.dns, Flag::Dns) {
            return Err(e);
        }
        if let Err(e) = add_listens(&mut proxy_listens, &addrs.proxy, Flag::Proxy) {
            return Err(e);
        }
        let added = match self.mode {
            Mode::Dns => add_listens(&mut dns_listens, &addrs.plain, Flag::Listen),
            Mode::Proxy => add_listens(&mut proxy_listens, &addrs.plain, Flag::Listen),
        };
        if let Err(e) = added {
            return Err(e);
        }
        let prefix = match self.prefix {
            Some(prefix) => prefix,
            None => return Err(invalid_input("missing required -p/--prefix IPv6 CIDR")),
        };
        let auth = if proxy_listens.len() > 0 {
            self.auth
        } else {
            None
        };
        Ok(
            Options {
                dns_listens,
                proxy_listens,
                auth,
                prefix,
                domain_config: self.domain_config,
                ipv4_pass_through: self.ipv4_pass_through,
                whitelist: self.whitelist,
            },
        )
    }
}

/// Reads the command line: `args` are the arguments behind the program's name.
pub fn parse_args(args: &Vec<String>) -> (r: Result<Command, Error>)
    ensures
        command_result(r) == command_text(texts(args@)),
        r matches Ok(Command::Run(options)) ==> options.prefix.wf(),
{
    let raw = match read_args(args) {
        Ok(Some(raw)) => raw,
        Ok(None) => return Ok(Command::Help),
        Err(e) => return Err(e),
    };
    let addrs = raw.read_addrs();
    match raw.into_options(addrs) {
        Ok(options) => Ok(Command::Run(options)),
        Err(e) => Err(e),
    }
}

// --- What the program runs with ---

/// What the program runs with.
#[derive(Debug)]
pub struct Config {
    pub dns_listens: Vec<SocketAddr>,
    pub proxy_listens: Vec<SocketAddr>,
    pub auth: Option<Auth>,
    pub prefix: Ipv6Prefix,
    pub domain_rules: DomainRules,
    pub ipv4_pass_through: bool,
    pub whitelist: Option<IpWhitelist>,
}

/// The mathematical view of [`Config`].
#[verifier::ext_equal]
pub struct ConfigView {
    pub dns_listens: Seq<SocketAddr>,
    pub proxy_listens: Seq<SocketAddr>,
    pub login: Option<Login>,
    pub prefix: Ipv6Prefix,
    pub rules: RulesView,
    pub ipv4_pass_through: bool,
    pub whitelist: Option<WhitelistView>,
}

/// The entries of an optional whitelist.
pub open spec fn list_of(whitelist: Option<IpWhitelist>) -> Option<WhitelistView> {
    match whitelist {
        Some(list) => Some(list@),
        None => None,
    }
}

impl View for Config {
    type V = ConfigView;

    open spec fn view(&self) -> ConfigView {
        ConfigView {
            dns_listens: self.dns_listens@,
            proxy_listens: self.proxy_listens@,
            login: login_of(self.auth),
            prefix: self.prefix,
            rules: self.domain_rules@,
            ipv4_pass_through: self.ipv4_pass_through,
            whitelist: list_of(self.whitelist),
        }
    }
}

impl ConfigView {
    /// Whether the peer `ip` may connect: everyone may where there is no
    /// whitelist.
    pub open spec fn admits(self, ip: IpAddr) -> bool {
        match self.whitelist {
            Some(list) => list.admits(ip),
            None => true,
        }
    }
}

/// What reading a file gave, as the specifications speak of it: nothing where no
/// file was read.
pub open spec fn file_view(file: Option<Result<String, Error>>) -> Option<
    Result<Seq<char>, Failure>,
> {
    match file {
        Some(Ok(text)) => Some(Ok(text@)),
        Some(Err(e)) => Some(Err(e@)),
        None => None,
    }
}

/// The rules in the domain file, of which reading gave `file`: none where no file
/// was read.
pub open spec fn rules_of_file(file: Option<Result<Seq<char>, Failure>>) -> Result<
    RulesView,
    Failure,
> {
    match file {
        None => Ok(RulesView::empty()),
        Some(Err(f)) => Err(f),
        Some(Ok(text)) => rules_text(text),
    }
}

/// The whitelist in the whitelist file, of which reading gave `file`: no
/// whitelist where no file was read.
pub open spec fn whitelist_of_file(file: Option<Result<Seq<char>, Failure>>) -> Result<
    Option<WhitelistView>,
    Failure,
> {
    match file {
        None => Ok(None),
        Some(Err(f)) => Err(f),
        Some(Ok(text)) => match whitelist_text(text) {
            Ok(list) => Ok(Some(list)),
            Err(f) => Err(f),
        },
    }
}

/// What the program runs with, once reading the files gave `domain` and
/// `whitelist`. A file that cannot be read or is malformed stops it, the domain
/// file first.
pub open spec fn config_from(
    options: OptionsView,
    domain: Option<Result<Seq<char>, Failure>>,
    whitelist: Option<Result<Seq<char>, Failure>>,
) -> Result<ConfigView, Failure> {
    match (rules_of_file(domain), whitelist_of_file(whitelist)) {
        (Err(f), _) => Err(f),
        (Ok(_), Err(f)) => Err(f),
        (Ok(rules), Ok(whitelist)) => Ok(
            ConfigView {
                dns_listens: options.dns_listens,
                proxy_listens: options.proxy_listens,
                login: options.login,
                prefix: options.prefix,
                rules,
                ipv4_pass_through: options.ipv4_pass_through,
                whitelist,
            },
        ),
    }
}

/// Whether the files were read that `options` ask for, and no others: the domain
/// file where DNS runs, the whitelist file where one was named.
pub open spec fn files_asked_for(
    options: OptionsView,
    domain: Option<Result<Seq<char>, Failure>>,
    whitelist: Option<Result<Seq<char>, Failure>>,
) -> bool {
    &&& domain is Some <==> options.dns_listens.len() > 0
    &&& whitelist is Some <==> options.whitelist is Some
}

/// `r` as the specifications speak of it.
pub open spec fn config_result(r: Result<Config, Error>) -> Result<ConfigView, Failure> {
    match r {
        Ok(config) => Ok(config@),
        Err(e) => Err(e@),
    }
}

impl Options {
    /// Whether the domain file is needed: it is where DNS runs.
    pub fn needs_domain_rules(&self) -> (r: bool)
        ensures
            r == (self@.dns_listens.len() > 0),
    {
        self.dns_listens.len() > 0
    }

    /// What the program runs with: `domain_file` and `whitelist_file` are what
    /// reading the files gave that the options ask for.
    pub fn configure(
        self,
        domain_file: Option<Result<String, Error>>,
        whitelist_file: Option<Result<String, Error>>,
    ) -> (r: Result<Config, Error>)
        requires
            files_asked_for(self@, file_view(domain_file), file_view(whitelist_file)),
        ensures
            config_result(r) == config_from(
                self@,
                file_view(domain_file),
                file_view(whitelist_file),
            ),
    {
        let domain_rules = match domain_file {
            None => DomainRules::default(),
            Some(Err(e)) => return Err(e),
            Some(Ok(text)) => match DomainRules::parse(text.as_str()) {
                Ok(rules) => rules,
                Err(e) => return Err(e),
            },
        };
        let whitelist = match whitelist_file {
            None => None,
            Some(Err(e)) => return Err(e),
            Some(Ok(text)) => match IpWhitelist::parse(text.as_str()) {
                Ok(list) => Some(list),
                Err(e) => return Err(e),
            },
        };
        Ok(
            Config {
                dns_listens: self.dns_listens,
                proxy_listens: self.proxy_listens,
                auth: self.auth,
                prefix: self.prefix,
                domain_rules,
                ipv4_pass_through: self.ipv4_pass_through,
                whitelist,
            },
        )
    }
}

/// The addresses in `addrs` whose IP address is the wildcard of its family.
pub open spec fn wildcards(addrs: Seq<SocketAddr>) -> Seq<SocketAddr> {
    addrs.filter(|addr: SocketAddr| addr.spec_ip().unspecified())
}

impl Config {
    /// Whether the peer `ip` may connect: everyone may where there is no
    /// whitelist.
    pub fn allows(&self, ip: IpAddr) -> (r: bool)
        ensures
            r == self@.admits(ip),
    {
        match &self.whitelist {
            Some(list) => list.allows(ip),
            None => true,
        }
    }

    /// The DNS listeners at a wildcard address, which no client can connect to
    /// when it is told to.
    pub fn wildcard_dns_listens(&self) -> (out: Vec<SocketAddr>)
        ensures
            out@ == wildcards(self@.dns_listens),
    {
        let mut out: Vec<SocketAddr> = Vec::new();
        let ghost all = self.dns_listens@;
        let ghost pred = |addr: SocketAddr| addr.spec_ip().unspecified();
        reveal(Seq::filter);
        for i in 0..self.dns_listens.len()
            invariant
                all == self.dns_listens@,
                pred == (|addr: SocketAddr| addr.spec_ip().unspecified()),
                out@ == all.take(i as int).filter(pred),
        {
            reveal(Seq::filter);
            assert(all.take(i + 1).drop_last() == all.take(i as int));
            if self.dns_listens[i].ip().is_unspecified() {
                out.push(self.dns_listens[i]);
            }
        }
        assert(all.take(all.len() as int) == all);
        out
    }

    /// How the whitelist stands, for the startup line.
    pub fn whitelist_state(&self) -> (s: String)
        ensures
            s@ == match self@.whitelist {
                Some(list) => "enabled ("@ + decimal(list.count()) + " entries)"@,
                None => "disabled"@,
            },
    {
        match &self.whitelist {
            Some(list) => {
                let mut s = "enabled (".to_string();
                push_decimal(&mut s, list.len());
                s.append(" entries)");
                s
            },
            None => "disabled".to_string(),
        }
    }
}

// --- Laws ---

/// Whether `addrs` are addresses, all of them, and no two of them the same.
pub open spec fn distinct_addrs(addrs: Seq<Option<SocketAddr>>) -> bool {
    &&& forall|i: int| 0 <= i < addrs.len() ==> (#[trigger] addrs[i]) is Some
    &&& addrs.no_duplicates()
}

/// Listeners are accepted exactly if all of them are addresses and no address is
/// given twice; then they are kept in order.
pub proof fn law_listeners_are_distinct(addrs: Seq<Option<SocketAddr>>, flag: Flag)
    ensures
        with_listens(Seq::empty(), addrs, flag) is Ok <==> distinct_addrs(addrs),
        with_listens(Seq::empty(), addrs, flag) matches Ok(listens) ==> listens.map_values(
            |addr: SocketAddr| Some(addr),
        ) == addrs,
{
    lemma_with_listens(Seq::empty(), addrs, flag);
    assert(somes(Seq::empty()) + addrs == addrs);
}

/// Addresses as they are read.
spec fn somes(listens: Seq<SocketAddr>) -> Seq<Option<SocketAddr>> {
    listens.map_values(|addr: SocketAddr| Some(addr))
}

proof fn lemma_with_listens(
    listens: Seq<SocketAddr>,
    addrs: Seq<Option<SocketAddr>>,
    flag: Flag,
)
    requires
        listens.no_duplicates(),
    ensures
        with_listens(listens, addrs, flag) is Ok <==> distinct_addrs(somes(listens) + addrs),
        with_listens(listens, addrs, flag) matches Ok(out) ==> somes(out) == somes(listens) + addrs,
    decreases addrs.len(),
{
    let all = somes(listens) + addrs;
    if addrs.len() == 0 {
        assert(all == somes(listens));
        assert forall|i: int, j: int| 0 <= i < all.len() && 0 <= j < all.len() && i != j implies
            all[i] != all[j] by {
            assert(listens[i] != listens[j]);
        }
    } else {
        let n = listens.len() as int;
        assert(all[n] == addrs[0]);
        match addrs[0] {
            None => {},
            Some(addr) => {
                if listens.contains(addr) {
                    let i = choose|i: int| 0 <= i < listens.len() && listens[i] == addr;
                    assert(all[i] == all[n]);
                } else {
                    let more = listens.push(addr);
                    assert(somes(more) + addrs.skip(1) == all);
                    lemma_with_listens(more, addrs.skip(1), flag);
                }
            },
        }
    }
}

/// A login counts where the proxy has a listener, and nowhere else.
pub proof fn law_login_counts_with_the_proxy(raw: RawView, addrs: AddrsView)
    requires
        options_from(raw, addrs) is Ok,
    ensures
        ({
            let options = options_from(raw, addrs)->Ok_0;
            options.login == if options.proxy_listens.len() > 0 {
                raw.login
            } else {
                None
            }
        }),
{
}

/// Listeners for DNS alone run DNS alone; listeners for the proxy alone run the
/// proxy alone; both run both.
pub proof fn law_listeners_decide_what_runs(raw: RawView, addrs: AddrsView)
    requires
        options_from(raw, addrs) is Ok,
        addrs.plain.len() == 0,
    ensures
        ({
            let options = options_from(raw, addrs)->Ok_0;
            &&& options.dns_listens.len() == addrs.dns.len()
            &&& options.proxy_listens.len() == addrs.proxy.len()
        }),
{
    lemma_with_listens(Seq::empty(), addrs.dns, Flag::Dns);
    lemma_with_listens(Seq::empty(), addrs.proxy, Flag::Proxy);
    let options = options_from(raw, addrs)->Ok_0;
    assert(somes(options.dns_listens) == somes(Seq::empty()) + addrs.dns);
    assert(somes(options.proxy_listens) == somes(Seq::empty()) + addrs.proxy);
}

/// A block alone on the command line runs the proxy at the usual port, without a
/// login, without IPv4 and without a whitelist.
pub proof fn law_block_alone_runs_the_proxy(value: Seq<char>, prefix: Ipv6Prefix, usual: SocketAddr)
    requires
        prefix_text(value) == Ok::<Ipv6Prefix, Failure>(prefix),
        socket_addr_text("0.0.0.0:1080"@) == Some(usual),
    ensures
        command_text(seq!["-p"@, value]) == Ok::<Option<OptionsView>, Failure>(
            Some(
                OptionsView {
                    dns_listens: Seq::empty(),
                    proxy_listens: seq![usual],
                    login: None,
                    prefix,
                    domain_config: None,
                    ipv4_pass_through: false,
                    whitelist: None,
                },
            ),
        ),
{
    reveal_strlit("-p");
    reveal_strlit("-dns");
    reveal_strlit("--dns");
    reveal_strlit("-proxy");
    reveal_strlit("--proxy");
    reveal_strlit("-l");
    reveal_strlit("--listen");
    reveal_strlit("-u");
    reveal_strlit("--user");
    assert("-p"@[1] == 'p' && "-l"@[1] == 'l' && "-u"@[1] == 'u');
    let args = seq!["-p"@, value];
    let raw = RawView { prefix: Some(prefix), ..RawView::initial() };
    assert(flag_text("-p"@) == Some(Flag::Prefix));
    assert(args.skip(2) == Seq::<Seq<char>>::empty());
    assert(scan(args.skip(2), raw) == Ok::<Option<RawView>, Failure>(Some(raw)));
    assert(scan(args, RawView::initial()) == Ok::<Option<RawView>, Failure>(Some(raw)));
    let addrs = raw_addrs(raw);
    assert(addrs.plain == seq![Some(usual)]);
    assert(addrs.plain.skip(1) == Seq::<Option<SocketAddr>>::empty());
    let none = Seq::<SocketAddr>::empty();
    assert(none.push(usual) == seq![usual]);
    assert(with_listens(none.push(usual), addrs.plain.skip(1), Flag::Listen) == Ok::<
        Seq<SocketAddr>,
        Failure,
    >(seq![usual]));
    assert(with_listens(none, addrs.plain, Flag::Listen) == Ok::<Seq<SocketAddr>, Failure>(
        seq![usual],
    ));
}

/// The value given with the last `flag` in `args`, if it is given: flags and
/// values take turns.
pub open spec fn last_given(args: Seq<Seq<char>>, flag: Flag) -> Option<Seq<char>>
    decreases args.len(),
{
    if args.len() < 2 {
        None
    } else {
        match last_given(args.skip(2), flag) {
            Some(value) => Some(value),
            None => if flag_text(args[0]) == Some(flag) {
                Some(args[1])
            } else {
                None
            },
        }
    }
}

/// The paths on the command line are those given last.
pub proof fn law_last_paths_count(args: Seq<Seq<char>>, raw: RawView)
    requires
        scan(args, raw) matches Ok(Some(_)),
    ensures
        ({
            let out = scan(args, raw)->Ok_0->0;
            &&& out.whitelist == match last_given(args, Flag::Whitelist) {
                Some(path) => Some(path),
                None => raw.whitelist,
            }
            &&& out.domain_config == match last_given(args, Flag::Config) {
                Some(path) => Some(path),
                None => raw.domain_config,
            }
        }),
    decreases args.len(),
{
    if args.len() > 0 {
        let next = raw.with(flag_text(args[0])->0, args[1])->Ok_0;
        law_last_paths_count(args.skip(2), next);
    }
}

/// Whether `-w` is on the command line decides whether there is a whitelist, and
/// its file decides what is in it: without it everyone may connect; a file that
/// cannot be read or is malformed stops the program; an empty file is a whitelist
/// without entries.
pub proof fn law_whitelist_comes_from_its_file(
    args: Seq<Seq<char>>,
    domain: Option<Result<Seq<char>, Failure>>,
    whitelist: Option<Result<Seq<char>, Failure>>,
)
    requires
        command_text(args) matches Ok(Some(_)),
        files_asked_for(command_text(args)->Ok_0->0, domain, whitelist),
        rules_of_file(domain) is Ok,
    ensures
        ({
            let r = config_from(command_text(args)->Ok_0->0, domain, whitelist);
            match last_given(args, Flag::Whitelist) {
                None => r matches Ok(config) && config.whitelist is None && forall|ip: IpAddr|
                    config.admits(ip),
                Some(_) => whitelist matches Some(file) && match file {
                    Err(f) => r == Err::<ConfigView, Failure>(f),
                    Ok(text) => match whitelist_text(text) {
                        Err(f) => r == Err::<ConfigView, Failure>(f),
                        Ok(list) => r matches Ok(config) && config.whitelist == Some(list) && (
                        text.len() == 0 ==> list == WhitelistView::empty()),
                    },
                },
            }
        }),
{
    law_last_paths_count(args, RawView::initial());
    if let Some(Ok(text)) = whitelist {
        if text.len() == 0 {
            let all = lines(text);
            assert(all == seq![text]);
            assert(line_text(text).len() == 0);
            law_blank_lines_hold_no_entry(all);
        }
    }
}

/// Where DNS runs, its rules are those in the domain file, and a file that cannot
/// be read or is malformed stops the program; where it does not run, there are no
/// rules.
pub proof fn law_rules_come_from_their_file(
    options: OptionsView,
    domain: Option<Result<Seq<char>, Failure>>,
    whitelist: Option<Result<Seq<char>, Failure>>,
)
    requires
        files_asked_for(options, domain, whitelist),
        whitelist_of_file(whitelist) is Ok,
    ensures
        ({
            let r = config_from(options, domain, whitelist);
            if options.dns_listens.len() == 0 {
                r matches Ok(config) && config.rules == RulesView::empty()
            } else {
                domain matches Some(file) && match file {
                    Err(f) => r == Err::<ConfigView, Failure>(f),
                    Ok(text) => match rules_text(text) {
                        Err(f) => r == Err::<ConfigView, Failure>(f),
                        Ok(rules) => r matches Ok(config) && config.rules == rules,
                    },
                }
            }
        }),
{
}

/// The truth values are written as their words, in capitals or small letters, and
/// as nothing else.
pub proof fn law_truth_values(value: Seq<char>)
    ensures
        bool_text(value) == Ok::<bool, Failure>(true) <==> spelled(
            value,
            seq!['t', 'r', 'u', 'e'],
        ),
        bool_text(value) == Ok::<bool, Failure>(false) <==> spelled(
            value,
            seq!['f', 'a', 'l', 's', 'e'],
        ),
        bool_text(value) matches Err(f) ==> f.kind == ErrorKind::InvalidInput,
{
    reveal_strlit("true");
    reveal_strlit("false");
    let yes = seq!['t', 'r', 'u', 'e'];
    let no = seq!['f', 'a', 'l', 's', 'e'];
    assert("true"@ =~= yes);
    assert("false"@ =~= no);
    assert(yes.len() == 4 && no.len() == 5);
    lemma_spelled(value, yes);
    lemma_spelled(value, no);
}

/// A login is the text before the first colon and the text behind it, byte by
/// byte; both have to be there, and so has the colon.
pub proof fn law_login_is_read(username: Seq<char>, password: Seq<char>)
    requires
        !username.contains(':'),
    ensures
        login_text(username) is Err,
        match login_text(username.push(':') + password) {
            Ok(login) => username.len() > 0 && password.len() > 0 && login.username == encode_utf8(
                username,
            ) && login.password == encode_utf8(password),
            Err(f) => (username.len() == 0 || password.len() == 0) && f.kind
                == ErrorKind::InvalidInput,
        },
{
    law_split_once(username, ':', password);
}

proof fn lemma_short_flags()
    ensures
        "-l"@.len() == 2 && "-l"@[1] == 'l',
        "-u"@.len() == 2 && "-u"@[1] == 'u',
        "-p"@.len() == 2 && "-p"@[1] == 'p',
        "-m"@.len() == 2 && "-m"@[1] == 'm',
        "-c"@.len() == 2 && "-c"@[1] == 'c',
        "-w"@.len() == 2 && "-w"@[1] == 'w',
        "-h"@.len() == 2 && "-h"@[1] == 'h',
        "-dns"@.len() == 4,
        "-proxy"@.len() == 6 && "-proxy"@[1] == 'p',
        "-ipv4_pass_through"@.len() == 18,
{
    reveal_strlit("-l");
    reveal_strlit("-u");
    reveal_strlit("-p");
    reveal_strlit("-m");
    reveal_strlit("-c");
    reveal_strlit("-w");
    reveal_strlit("-h");
    reveal_strlit("-dns");
    reveal_strlit("-proxy");
    reveal_strlit("-ipv4_pass_through");
}

proof fn lemma_long_flags()
    ensures
        "--dns"@.len() == 5,
        "--proxy"@.len() == 7,
        "--listen"@.len() == 8 && "--listen"@[2] == 'l',
        "--user"@.len() == 6 && "--user"@[1] == '-' && "--user"@[2] == 'u',
        "--prefix"@.len() == 8 && "--prefix"@[2] == 'p',
        "--mode"@.len() == 6 && "--mode"@[1] == '-' && "--mode"@[2] == 'm',
        "--config"@.len() == 8 && "--config"@[2] == 'c',
        "--ipv4_pass_through"@.len() == 19,
        "--whitelist"@.len() == 11,
        "--help"@.len() == 6 && "--help"@[1] == '-' && "--help"@[2] == 'h',
{
    reveal_strlit("--dns");
    reveal_strlit("--proxy");
    reveal_strlit("--listen");
    reveal_strlit("--user");
    reveal_strlit("--prefix");
    reveal_strlit("--mode");
    reveal_strlit("--config");
    reveal_strlit("--ipv4_pass_through");
    reveal_strlit("--whitelist");
    reveal_strlit("--help");
}

/// Each flag has its two spellings, and no other argument is that flag.
pub proof fn law_flags_are_spelled(arg: Seq<char>)
    ensures
        flag_text(arg) == Some(Flag::Dns) <==> arg == "-dns"@ || arg == "--dns"@,
        flag_text(arg) == Some(Flag::Proxy) <==> arg == "-proxy"@ || arg == "--proxy"@,
        flag_text(arg) == Some(Flag::Listen) <==> arg == "-l"@ || arg == "--listen"@,
        flag_text(arg) == Some(Flag::User) <==> arg == "-u"@ || arg == "--user"@,
        flag_text(arg) == Some(Flag::Prefix) <==> arg == "-p"@ || arg == "--prefix"@,
        flag_text(arg) == Some(Flag::Mode) <==> arg == "-m"@ || arg == "--mode"@,
        flag_text(arg) == Some(Flag::Config) <==> arg == "-c"@ || arg == "--config"@,
        flag_text(arg) == Some(Flag::PassThrough) <==> arg == "-ipv4_pass_through"@ || arg
            == "--ipv4_pass_through"@,
        flag_text(arg) == Some(Flag::Whitelist) <==> arg == "-w"@ || arg == "--whitelist"@,
        flag_text(arg) == Some(Flag::Help) <==> arg == "-h"@ || arg == "--help"@,
{
    lemma_short_flags();
    lemma_long_flags();
}

/// What the first argument does: help ends the reading; what is no flag, a flag
/// without a value and a value that its flag refuses are errors; any other flag
/// is taken with its value, and reading goes on behind them.
pub proof fn law_first_argument(arg: Seq<char>, value: Seq<char>, rest: Seq<Seq<char>>, raw: RawView)
    ensures
        ({
            let all = seq![arg, value] + rest;
            match flag_text(arg) {
                None => {
                    &&& scan(all, raw) == scan(seq![arg], raw)
                    &&& scan(all, raw) matches Err(f) && f.kind == ErrorKind::InvalidInput
                        && f.message == "unknown argument: "@ + arg
                },
                Some(Flag::Help) => {
                    &&& scan(all, raw) == Ok::<Option<RawView>, Failure>(None)
                    &&& scan(seq![arg], raw) == Ok::<Option<RawView>, Failure>(None)
                },
                Some(flag) => {
                    &&& scan(seq![arg], raw) matches Err(f) && f.kind == ErrorKind::InvalidInput
                    &&& match raw.with(flag, value) {
                        Ok(next) => scan(all, raw) == scan(rest, next),
                        Err(f) => scan(all, raw) == Err::<Option<RawView>, Failure>(f),
                    }
                },
            }
        }),
        scan(Seq::empty(), raw) == Ok::<Option<RawView>, Failure>(Some(raw)),
{
    let all = seq![arg, value] + rest;
    assert(all[0] == arg && all[1] == value);
    assert(all.skip(2) == rest);
}

/// Each flag sets its own value and leaves the others; a listener is added behind
/// those given before.
pub proof fn law_flag_sets_its_value(raw: RawView, value: Seq<char>)
    ensures
        raw.with(Flag::Dns, value) == Ok::<RawView, Failure>(
            RawView { dns: raw.dns + seq![value], ..raw },
        ),
        raw.with(Flag::Proxy, value) == Ok::<RawView, Failure>(
            RawView { proxy: raw.proxy + seq![value], ..raw },
        ),
        raw.with(Flag::Listen, value) == Ok::<RawView, Failure>(
            RawView { listen: raw.listen + seq![value], ..raw },
        ),
        raw.with(Flag::Config, value) == Ok::<RawView, Failure>(
            RawView { domain_config: Some(value), ..raw },
        ),
        raw.with(Flag::Whitelist, value) == Ok::<RawView, Failure>(
            RawView { whitelist: Some(value), ..raw },
        ),
        match (raw.with(Flag::User, value), login_text(value)) {
            (Ok(next), Ok(login)) => next == (RawView { login: Some(login), ..raw }),
            (Err(f), Err(g)) => f == g,
            _ => false,
        },
        match (raw.with(Flag::Prefix, value), prefix_text(value)) {
            (Ok(next), Ok(prefix)) => next == (RawView { prefix: Some(prefix), ..raw }),
            (Err(f), Err(g)) => f == g,
            _ => false,
        },
        match (raw.with(Flag::Mode, value), mode_text(value)) {
            (Ok(next), Ok(mode)) => next == (RawView { mode, ..raw }),
            (Err(f), Err(g)) => f == g,
            _ => false,
        },
        match (raw.with(Flag::PassThrough, value), bool_text(value)) {
            (Ok(next), Ok(b)) => next == (RawView { ipv4_pass_through: b, ..raw }),
            (Err(f), Err(g)) => f == g,
            _ => false,
        },
{
    assert(raw.dns.push(value) == raw.dns + seq![value]);
    assert(raw.proxy.push(value) == raw.proxy + seq![value]);
    assert(raw.listen.push(value) == raw.listen + seq![value]);
}

/// Before any argument is read there are no listeners, no login, no block and no
/// files, plain listeners belong to the proxy, and IPv4 is not allowed.
pub proof fn law_nothing_is_set_at_first()
    ensures
        ({
            let raw = RawView::initial();
            &&& raw.dns.len() == 0 && raw.proxy.len() == 0 && raw.listen.len() == 0
            &&& raw.login is None && raw.prefix is None
            &&& raw.mode == Mode::Proxy
            &&& raw.domain_config is None && raw.whitelist is None
            &&& !raw.ipv4_pass_through
        }),
{
}

/// The usual listener is there exactly if no other was given.
pub proof fn law_usual_listener(raw: RawView)
    ensures
        raw.dns.len() + raw.proxy.len() + raw.listen.len() == 0 ==> plain_listens(raw) == seq![
            "0.0.0.0:1080"@,
        ],
        raw.dns.len() + raw.proxy.len() + raw.listen.len() > 0 ==> plain_listens(raw) == raw.listen,
{
}

/// Each listener argument is read as the address that it denotes, in order.
pub proof fn law_listener_arguments_are_read(raw: RawView)
    ensures
        ({
            let addrs = raw_addrs(raw);
            &&& addrs.dns.len() == raw.dns.len()
            &&& addrs.proxy.len() == raw.proxy.len()
            &&& addrs.plain.len() == plain_listens(raw).len()
            &&& forall|i: int|
                0 <= i < raw.dns.len() ==> #[trigger] addrs.dns[i] == socket_addr_text(raw.dns[i])
            &&& forall|i: int|
                0 <= i < raw.proxy.len() ==> #[trigger] addrs.proxy[i] == socket_addr_text(
                    raw.proxy[i],
                )
            &&& forall|i: int|
                0 <= i < addrs.plain.len() ==> #[trigger] addrs.plain[i] == socket_addr_text(
                    plain_listens(raw)[i],
                )
        }),
{
}

/// Plain listeners run behind the others of the service that the mode names, in
/// order. A command line is accepted exactly if a block was given and the
/// listeners of each service are addresses, no two of them the same.
pub proof fn law_plain_listeners_belong_to_the_mode(raw: RawView, addrs: AddrsView)
    ensures
        ({
            let (dns, proxy) = match raw.mode {
                Mode::Dns => (addrs.dns + addrs.plain, addrs.proxy),
                Mode::Proxy => (addrs.dns, addrs.proxy + addrs.plain),
            };
            match options_from(raw, addrs) {
                Ok(options) => {
                    &&& raw.prefix == Some(options.prefix)
                    &&& distinct_addrs(dns) && distinct_addrs(proxy)
                    &&& options.dns_listens.map_values(|addr: SocketAddr| Some(addr)) == dns
                    &&& options.proxy_listens.map_values(|addr: SocketAddr| Some(addr)) == proxy
                },
                Err(f) => raw.prefix is None || !distinct_addrs(dns) || !distinct_addrs(proxy),
            }
        }),
{
    let none = Seq::<SocketAddr>::empty();
    assert(somes(none) + addrs.dns == addrs.dns);
    assert(somes(none) + addrs.proxy == addrs.proxy);
    lemma_with_listens(none, addrs.dns, Flag::Dns);
    lemma_with_listens(none, addrs.proxy, Flag::Proxy);
    if raw.mode == Mode::Dns {
        lemma_front_is_distinct(addrs.dns, addrs.plain);
        if let Ok(dns) = with_listens(none, addrs.dns, Flag::Dns) {
            lemma_no_duplicates(dns);
            lemma_with_listens(dns, addrs.plain, Flag::Listen);
        }
    } else {
        lemma_front_is_distinct(addrs.proxy, addrs.plain);
        if let Ok(proxy) = with_listens(none, addrs.proxy, Flag::Proxy) {
            lemma_no_duplicates(proxy);
            lemma_with_listens(proxy, addrs.plain, Flag::Listen);
        }
    }
}

proof fn lemma_front_is_distinct(a: Seq<Option<SocketAddr>>, b: Seq<Option<SocketAddr>>)
    ensures
        distinct_addrs(a + b) ==> distinct_addrs(a),
{
    let all = a + b;
    if distinct_addrs(all) {
        assert forall|i: int| 0 <= i < a.len() implies (#[trigger] a[i]) is Some by {
            assert(all[i] == a[i]);
        }
        assert forall|i: int, j: int| 0 <= i < a.len() && 0 <= j < a.len() && i != j implies a[i]
            != a[j] by {
            assert(all[i] == a[i] && all[j] == a[j]);
        }
    }
}

proof fn lemma_no_duplicates(listens: Seq<SocketAddr>)
    requires
        somes(listens).no_duplicates(),
    ensures
        listens.no_duplicates(),
{
    assert forall|i: int, j: int|
        0 <= i < listens.len() && 0 <= j < listens.len() && i != j implies listens[i]
        != listens[j] by {
        assert(somes(listens)[i] != somes(listens)[j]);
    }
}

/// What the command line gave is what the program is asked to do.
pub proof fn law_options_keep_what_was_given(raw: RawView, addrs: AddrsView)
    requires
        options_from(raw, addrs) is Ok,
    ensures
        ({
            let options = options_from(raw, addrs)->Ok_0;
            &&& raw.prefix == Some(options.prefix)
            &&& options.domain_config == raw.domain_config
            &&& options.ipv4_pass_through == raw.ipv4_pass_through
            &&& options.whitelist == raw.whitelist
        }),
{
}

/// What the program is asked to do is what it runs with.
pub proof fn law_config_keeps_the_options(
    options: OptionsView,
    domain: Option<Result<Seq<char>, Failure>>,
    whitelist: Option<Result<Seq<char>, Failure>>,
)
    requires
        config_from(options, domain, whitelist) is Ok,
    ensures
        ({
            let config = config_from(options, domain, whitelist)->Ok_0;
            &&& config.dns_listens == options.dns_listens
            &&& config.proxy_listens == options.proxy_listens
            &&& config.login == options.login
            &&& config.prefix == options.prefix
            &&& config.ipv4_pass_through == options.ipv4_pass_through
        }),
{
}

/// What is wrong with the domain file is reported first.
pub proof fn law_domain_file_is_reported_first(
    options: OptionsView,
    domain: Option<Result<Seq<char>, Failure>>,
    whitelist: Option<Result<Seq<char>, Failure>>,
)
    requires
        rules_of_file(domain) is Err,
    ensures
        config_from(options, domain, whitelist) == Err::<ConfigView, Failure>(
            rules_of_file(domain)->Err_0,
        ),
{
}

/// Without a whitelist everyone may connect; with one, those whom it admits and
/// nobody else.
pub proof fn law_whitelist_decides_who_may_connect(config: ConfigView, ip: IpAddr)
    ensures
        config.whitelist is None ==> config.admits(ip),
        config.whitelist matches Some(list) ==> (config.admits(ip) <==> list.admits(ip)),
{
}

/// The wildcard listeners are those whose address is zero, in order.
pub proof fn law_wildcards(addrs: Seq<SocketAddr>, addr: SocketAddr)
    ensures
        wildcards(Seq::empty()).len() == 0,
        wildcards(addrs.push(addr)) == match addr {
            SocketAddr::V4 { ip, .. } if ip == 0 => wildcards(addrs).push(addr),
            SocketAddr::V6 { ip, .. } if ip == 0 => wildcards(addrs).push(addr),
            _ => wildcards(addrs),
        },
{
    reveal(Seq::filter);
    assert(addrs.push(addr).drop_last() == addrs);
}

/// What reading a file gave is what counts: its text, or what went wrong with it.
pub proof fn law_file_counts_as_it_was_read(text: String, e: Error)
    ensures
        file_view(Some(Ok(text))) == Some(Ok::<Seq<char>, Failure>(text@)),
        file_view(Some(Err(e))) == Some(Err::<Seq<char>, Failure>(e@)),
        file_view(None) is None,
{
}

/// Results and optional values stay what they are.
pub proof fn law_results_are_kept(
    options: Options,
    config: Config,
    list: IpWhitelist,
    auth: Auth,
    text: String,
    e: Error,
)
    ensures
        command_result(Ok(Command::Help)) == Ok::<Option<OptionsView>, Failure>(None),
        command_result(Ok(Command::Run(options))) == Ok::<Option<OptionsView>, Failure>(
            Some(options@),
        ),
        command_result(Err(e)) == Err::<Option<OptionsView>, Failure>(e@),
        options_result(Ok(options)) == Ok::<OptionsView, Failure>(options@),
        options_result(Err(e)) == Err::<OptionsView, Failure>(e@),
        config_result(Ok(config)) == Ok::<ConfigView, Failure>(config@),
        config_result(Err(e)) == Err::<ConfigView, Failure>(e@),
        list_of(Some(list)) == Some(list@),
        list_of(None) is None,
        login_of(Some(auth)) == Some(
            Login { username: auth.username@, password: auth.password@ },
        ),
        login_of(None) is None,
        text_of(Some(text)) == Some(text@),
        text_of(None) is None,
{
}

} // verus!
