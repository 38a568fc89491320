//! The SOCKS5 negotiation as a state machine: each stage says how many bytes to
//! read next, and what to send and where to go on once they are there.
use crate::bytes::be16;
use crate::bytes::be16_bytes;
use crate::bytes::be_bytes;
use crate::bytes::be_value;
use crate::bytes::lemma_be16_bytes;
use crate::bytes::lemma_be_value;
use crate::bytes::lemma_pow256;
use crate::bytes::read_be16;
use crate::error::bad_input;
use crate::error::error;
use crate::error::failure;
use crate::error::invalid_input;
use crate::error::Error;
use crate::error::ErrorKind;
use crate::error::Failure;
use crate::net::IpAddr;
use crate::net::SocketAddr;
use crate::route::Target;
use crate::route::TargetAddr;
use vstd::arithmetic::power::lemma_pow_increases;
use vstd::arithmetic::power::pow;
use vstd::prelude::*;
use vstd::slice::slice_subrange;
use vstd::utf8::decode_utf8;
use vstd::utf8::encode_utf8;
use vstd::utf8::encode_utf8_decode_utf8;
use vstd::utf8::encode_utf8_valid_utf8;
use vstd::utf8::valid_utf8;

verus! {

/// The user name and password that clients have to give.
#[derive(Debug)]
pub struct Auth {
    pub username: Vec<u8>,
    pub password: Vec<u8>,
}

/// The mathematical view of [`Auth`].
pub struct Login {
    pub username: Seq<u8>,
    pub password: Seq<u8>,
}

impl View for Auth {
    type V = Login;

    open spec fn view(&self) -> Login {
        Login { username: self.username@, password: self.password@ }
    }
}

/// The login that clients have to give, if any.
pub open spec fn login_view(auth: Option<&Auth>) -> Option<Login> {
    match auth {
        Some(auth) => Some(auth@),
        None => None,
    }
}

// --- Replies ---

/// The reply with the code `code`: no bound address is told.
pub open spec fn reply_bytes(code: u8) -> Seq<u8> {
    seq![0x05u8, code, 0x00u8, 0x04u8] + Seq::new(18, |i: int| 0u8)
}

/// The reply code for an error of class `kind`.
pub open spec fn code_for(kind: ErrorKind) -> u8 {
    match kind {
        ErrorKind::PermissionDenied => 0x02,
        ErrorKind::ConnectionRefused => 0x05,
        ErrorKind::TimedOut => 0x06,
        ErrorKind::Unsupported => 0x08,
        ErrorKind::AddrNotAvailable | ErrorKind::NotFound => 0x04,
        _ => 0x01,
    }
}

/// The reply with the code `code`.
pub fn socks5_reply(code: u8) -> (reply: Vec<u8>)
    ensures
        reply@ == reply_bytes(code),
{
    let mut reply: Vec<u8> = vec![0x05, code, 0x00, 0x04];
    let ghost head = reply@;
    assert(head == seq![0x05u8, code, 0x00u8, 0x04u8]);
    for i in 0..18
        invariant
            reply@ == head + Seq::new(i as nat, |j: int| 0u8),
    {
        reply.push(0);
        assert(Seq::new((i + 1) as nat, |j: int| 0u8) == Seq::new(i as nat, |j: int| 0u8).push(0));
    }
    reply
}

/// The reply code for `err`.
pub fn socks5_error_code(err: &Error) -> (code: u8)
    ensures
        code == code_for(err@.kind),
{
    match err.kind {
        ErrorKind::PermissionDenied => 0x02,
        ErrorKind::ConnectionRefused => 0x05,
        ErrorKind::TimedOut => 0x06,
        ErrorKind::Unsupported => 0x08,
        ErrorKind::AddrNotAvailable | ErrorKind::NotFound => 0x04,
        _ => 0x01,
    }
}

/// The reply once the connection was tried: `failed` is what went wrong with it.
pub fn connect_reply(failed: Option<&Error>) -> (reply: Vec<u8>)
    ensures
        reply@ == match failed {
            Some(err) => reply_bytes(code_for(err@.kind)),
            None => reply_bytes(0x00),
        },
{
    match failed {
        Some(err) => socks5_reply(socks5_error_code(err)),
        None => socks5_reply(0x00),
    }
}

// --- Stages ---

/// What the negotiation waits for.
#[derive(Clone, Copy, Debug, PartialEq, Eq, Structural)]
pub enum Stage {
    /// The version and how many methods follow.
    Greeting,
    /// The methods.
    Methods { count: u8 },
    /// The version of the login and the length of the user name.
    LoginHead,
    /// The user name.
    Username { len: u8 },
    /// The length of the password. `known`: the user name was the right one.
    PasswordLen { known: bool },
    /// The password. `known`: the user name was the right one.
    Password { known: bool, len: u8 },
    /// The head of the request.
    Request,
    /// An IPv4 address and a port.
    Ipv4,
    /// The length of a domain name.
    NameLen,
    /// A domain name and a port.
    Name { len: u8 },
    /// An IPv6 address and a port.
    Ipv6,
}

/// What comes next.
#[derive(Debug)]
pub enum Next {
    /// Read what this stage needs.
    Read(Stage),
    /// Connect the client.
    Connect(TargetAddr),
    /// Give up.
    Fail(Error),
}

/// What to do: send the bytes, if there are any, then go on.
#[derive(Debug)]
pub struct Step {
    pub reply: Vec<u8>,
    pub next: Next,
}

/// The mathematical view of [`Next`].
pub enum NextView {
    Read(Stage),
    Connect(Target),
    Fail(Failure),
}

/// The mathematical view of [`Step`].
#[verifier::ext_equal]
pub struct StepView {
    pub reply: Seq<u8>,
    pub next: NextView,
}

impl View for Next {
    type V = NextView;

    open spec fn view(&self) -> NextView {
        match self {
            Next::Read(stage) => NextView::Read(*stage),
            Next::Connect(target) => NextView::Connect(target@),
            Next::Fail(e) => NextView::Fail(e@),
        }
    }
}

impl View for Step {
    type V = StepView;

    open spec fn view(&self) -> StepView {
        StepView { reply: self.reply@, next: self.next@ }
    }
}

impl Stage {
    /// How many bytes the stage reads.
    pub open spec fn spec_need(self) -> nat {
        match self {
            Stage::Greeting => 2,
            Stage::Methods { count } => count as nat,
            Stage::LoginHead => 2,
            Stage::Username { len } => len as nat,
            Stage::PasswordLen { .. } => 1,
            Stage::Password { len, .. } => len as nat,
            Stage::Request => 4,
            Stage::Ipv4 => 6,
            Stage::NameLen => 1,
            Stage::Name { len } => (len + 2) as nat,
            Stage::Ipv6 => 18,
        }
    }

    /// How many bytes the stage reads.
    pub fn need(&self) -> (n: usize)
        ensures
            n == self.spec_need(),
            n <= 257,
    {
        match *self {
            Stage::Greeting => 2,
            Stage::Methods { count } => count as usize,
            Stage::LoginHead => 2,
            Stage::Username { len } => len as usize,
            Stage::PasswordLen { .. } => 1,
            Stage::Password { len, .. } => len as usize,
            Stage::Request => 4,
            Stage::Ipv4 => 6,
            Stage::NameLen => 1,
            Stage::Name { len } => len as usize + 2,
            Stage::Ipv6 => 18,
        }
    }

    /// How far the stage is from the end.
    pub open spec fn rank(self) -> nat {
        match self {
            Stage::Greeting => 9,
            Stage::Methods { .. } => 8,
            Stage::LoginHead => 7,
            Stage::Username { .. } => 6,
            Stage::PasswordLen { .. } => 5,
            Stage::Password { .. } => 4,
            Stage::Request => 3,
            Stage::NameLen => 2,
            Stage::Ipv4 | Stage::Ipv6 | Stage::Name { .. } => 1,
        }
    }
}

/// Going on to `stage` without sending anything.
pub open spec fn read_on(stage: Stage) -> StepView {
    StepView { reply: Seq::empty(), next: NextView::Read(stage) }
}

/// Sending `reply` and going on to `stage`.
pub open spec fn send_on(reply: Seq<u8>, stage: Stage) -> StepView {
    StepView { reply, next: NextView::Read(stage) }
}

/// Sending `reply` and giving up.
pub open spec fn give_up(reply: Seq<u8>, f: Failure) -> StepView {
    StepView { reply, next: NextView::Fail(f) }
}

/// Connecting the client to `target`.
pub open spec fn connect_to(target: Target) -> StepView {
    StepView { reply: Seq::empty(), next: NextView::Connect(target) }
}

/// The greeting: SOCKS version 5 and at least one method.
pub open spec fn greeting_step(input: Seq<u8>) -> StepView {
    if input[0] != 0x05 {
        give_up(Seq::empty(), bad_input("invalid SOCKS version"@))
    } else if input[1] == 0 {
        give_up(Seq::empty(), bad_input("SOCKS5 client sent no auth methods"@))
    } else {
        read_on(Stage::Methods { count: input[1] })
    }
}

/// The methods: the login where one is asked for, none where none is.
pub open spec fn methods_step(login: Option<Login>, input: Seq<u8>) -> StepView {
    match login {
        Some(_) => if input.contains(0x02) {
            send_on(seq![0x05u8, 0x02u8], Stage::LoginHead)
        } else {
            give_up(
                seq![0x05u8, 0xffu8],
                failure(
                    ErrorKind::PermissionDenied,
                    "client does not support username/password auth"@,
                ),
            )
        },
        None => if input.contains(0x00) {
            send_on(seq![0x05u8, 0x00u8], Stage::Request)
        } else {
            give_up(
                seq![0x05u8, 0xffu8],
                failure(ErrorKind::PermissionDenied, "client does not support no-auth mode"@),
            )
        },
    }
}

/// The head of the login.
pub open spec fn login_step(input: Seq<u8>) -> StepView {
    if input[0] != 0x01 {
        give_up(seq![0x01u8, 0x01u8], bad_input("invalid username/password auth version"@))
    } else {
        read_on(Stage::Username { len: input[1] })
    }
}

/// The password: the login is right if both parts are.
pub open spec fn password_step(login: Option<Login>, known: bool, input: Seq<u8>) -> StepView {
    if known && login is Some && input == login->0.password {
        send_on(seq![0x01u8, 0x00u8], Stage::Request)
    } else {
        give_up(
            seq![0x01u8, 0x01u8],
            failure(ErrorKind::PermissionDenied, "invalid username or password"@),
        )
    }
}

/// The head of the request: only CONNECT is served.
pub open spec fn request_step(input: Seq<u8>) -> StepView {
    if input[0] != 0x05 || input[2] != 0x00 {
        give_up(Seq::empty(), bad_input("invalid SOCKS5 request header"@))
    } else if input[1] != 0x01 {
        give_up(
            reply_bytes(0x07),
            failure(ErrorKind::Unsupported, "only SOCKS5 CONNECT is supported"@),
        )
    } else if input[3] == 0x01 {
        read_on(Stage::Ipv4)
    } else if input[3] == 0x03 {
        read_on(Stage::NameLen)
    } else if input[3] == 0x04 {
        read_on(Stage::Ipv6)
    } else {
        give_up(
            reply_bytes(0x08),
            failure(ErrorKind::Unsupported, "unsupported SOCKS5 address type"@),
        )
    }
}

/// A domain name of `len` bytes and a port.
pub open spec fn name_step(len: u8, input: Seq<u8>) -> StepView {
    let name = input.take(len as int);
    if valid_utf8(name) {
        connect_to(Target::Domain(decode_utf8(name), be16(input, len as int) as u16))
    } else {
        give_up(Seq::empty(), bad_input("SOCKS5 domain is not valid UTF-8"@))
    }
}

/// What to do when the bytes are there that `stage` needs.
pub open spec fn step_of(stage: Stage, login: Option<Login>, input: Seq<u8>) -> StepView {
    match stage {
        Stage::Greeting => greeting_step(input),
        Stage::Methods { .. } => methods_step(login, input),
        Stage::LoginHead => login_step(input),
        Stage::Username { .. } => read_on(
            Stage::PasswordLen {
                known: login is Some && input == login->0.username,
            },
        ),
        Stage::PasswordLen { known } => read_on(Stage::Password { known, len: input[0] }),
        Stage::Password { known, .. } => password_step(login, known, input),
        Stage::Request => request_step(input),
        Stage::Ipv4 => connect_to(
            Target::Ip(
                SocketAddr::at(IpAddr::V4(be_value(input.take(4)) as u32), be16(input, 4) as u16),
            ),
        ),
        Stage::NameLen => read_on(Stage::Name { len: input[0] }),
        Stage::Name { len } => name_step(len, input),
        Stage::Ipv6 => connect_to(
            Target::Ip(
                SocketAddr::at(
                    IpAddr::V6(be_value(input.take(16)) as u128),
                    be16(input, 16) as u16,
                ),
            ),
        ),
    }
}

fn has_byte(bytes: &[u8], byte: u8) -> (found: bool)
    ensures
        found == bytes@.contains(byte),
{
    for i in 0..bytes.len()
        invariant
            forall|j: int| 0 <= j < i ==> bytes@[j] != byte,
    {
        if bytes[i] == byte {
            return true;
        }
    }
    false
}

fn same_bytes(a: &[u8], b: &[u8]) -> (same: bool)
    ensures
        same == (a@ == b@),
{
    if a.len() != b.len() {
        return false;
    }
    for i in 0..a.len()
        invariant
            a@.len() == b@.len(),
            forall|j: int| 0 <= j < i ==> a@[j] == b@[j],
    {
        if a[i] != b[i] {
            return false;
        }
    }
    assert(a@ =~= b@);
    true
}

/// The number that the first `len` bytes spell.
fn read_be(bytes: &[u8], len: usize) -> (n: u128)
    requires
        len <= bytes@.len(),
        len <= 16,
    ensures
        n == be_value(bytes@.take(len as int)),
        n < pow(256, len as nat),
    decreases len,
{
    reveal(pow);
    if len == 0 {
        return 0;
    }
    let high = read_be(bytes, len - 1);
    proof {
        assert(bytes@.take(len as int).drop_last() == bytes@.take(len - 1));
        lemma_pow_increases(256, len as nat, 16);
        lemma_pow256();
        assert(high + 1 <= pow(256, (len - 1) as nat));
    }
    high * 256 + bytes[len - 1] as u128
}

fn ip_target(ip: IpAddr, port: u16) -> (step: Step)
    ensures
        step@ == connect_to(Target::Ip(SocketAddr::at(ip, port))),
{
    let step = Step {
        reply: Vec::new(),
        next: Next::Connect(TargetAddr::Ip(SocketAddr::new(ip, port))),
    };
    assert(step@ =~= connect_to(Target::Ip(SocketAddr::at(ip, port))));
    step
}

fn reading(stage: Stage) -> (step: Step)
    ensures
        step@ == read_on(stage),
{
    let step = Step { reply: Vec::new(), next: Next::Read(stage) };
    assert(step@ =~= read_on(stage));
    step
}

fn sending(a: u8, b: u8, stage: Stage) -> (step: Step)
    ensures
        step@ == send_on(seq![a, b], stage),
{
    let step = Step { reply: vec![a, b], next: Next::Read(stage) };
    assert(step@ =~= send_on(seq![a, b], stage));
    step
}

fn failing(reply: Vec<u8>, e: Error) -> (step: Step)
    ensures
        step@ == give_up(reply@, e@),
{
    Step { reply, next: Next::Fail(e) }
}

fn no_reply() -> (reply: Vec<u8>)
    ensures
        reply@ == Seq::<u8>::empty(),
{
    Vec::new()
}

fn two_bytes(a: u8, b: u8) -> (reply: Vec<u8>)
    ensures
        reply@ == seq![a, b],
{
    let reply: Vec<u8> = vec![a, b];
    assert(reply@ =~= seq![a, b]);
    reply
}

/// The greeting and the methods.
fn socks5_handshake(stage: Stage, auth: Option<&Auth>, input: &[u8]) -> (step: Step)
    requires
        stage is Greeting || stage is Methods,
        input@.len() == stage.spec_need(),
    ensures
        step@ == step_of(stage, login_view(auth), input@),
{
    match stage {
        Stage::Greeting => {
            if input[0] != 0x05 {
                failing(no_reply(), invalid_input("invalid SOCKS version"))
            } else if input[1] == 0 {
                failing(no_reply(), invalid_input("SOCKS5 client sent no auth methods"))
            } else {
                reading(Stage::Methods { count: input[1] })
            }
        },
        _ => {
            match auth {
                Some(_) => {
                    if has_byte(input, 0x02) {
                        sending(0x05, 0x02, Stage::LoginHead)
                    } else {
                        failing(
                            two_bytes(0x05, 0xff),
                            error(
                                ErrorKind::PermissionDenied,
                                "client does not support username/password auth",
                            ),
                        )
                    }
                },
                None => {
                    if has_byte(input, 0x00) {
                        sending(0x05, 0x00, Stage::Request)
                    } else {
                        failing(
                            two_bytes(0x05, 0xff),
                            error(
                                ErrorKind::PermissionDenied,
                                "client does not support no-auth mode",
                            ),
                        )
                    }
                },
            }
        },
    }
}

/// The login.
fn username_password_auth(stage: Stage, auth: Option<&Auth>, input: &[u8]) -> (step: Step)
    requires
        stage is LoginHead || stage is Username || stage is PasswordLen || stage is Password,
        input@.len() == stage.spec_need(),
    ensures
        step@ == step_of(stage, login_view(auth), input@),
{
    match stage {
        Stage::LoginHead => {
            if input[0] != 0x01 {
                failing(
                    two_bytes(0x01, 0x01),
                    invalid_input("invalid username/password auth version"),
                )
            } else {
                reading(Stage::Username { len: input[1] })
            }
        },
        Stage::Username { .. } => {
            let known = match auth {
                Some(auth) => same_bytes(input, auth.username.as_slice()),
                None => false,
            };
            reading(Stage::PasswordLen { known })
        },
        Stage::PasswordLen { known } => reading(Stage::Password { known, len: input[0] }),
        Stage::Password { known, .. } => {
            let right = match auth {
                Some(auth) => known && same_bytes(input, auth.password.as_slice()),
                None => false,
            };
            if right {
                sending(0x01, 0x00, Stage::Request)
            } else {
                failing(
                    two_bytes(0x01, 0x01),
                    error(ErrorKind::PermissionDenied, "invalid username or password"),
                )
            }
        },
        _ => reading(stage),
    }
}

/// The request.
fn read_socks5_request(stage: Stage, input: &[u8]) -> (step: Step)
    requires
        stage is Request || stage is Ipv4 || stage is NameLen || stage is Name || stage is Ipv6,
        input@.len() == stage.spec_need(),
    ensures
        step@ == step_of(stage, None, input@),
{
    match stage {
        Stage::Request => {
            if input[0] != 0x05 || input[2] != 0x00 {
                failing(no_reply(), invalid_input("invalid SOCKS5 request header"))
            } else if input[1] != 0x01 {
                failing(
                    socks5_reply(0x07),
                    error(ErrorKind::Unsupported, "only SOCKS5 CONNECT is supported"),
                )
            } else if input[3] == 0x01 {
                reading(Stage::Ipv4)
            } else if input[3] == 0x03 {
                reading(Stage::NameLen)
            } else if input[3] == 0x04 {
                reading(Stage::Ipv6)
            } else {
                failing(
                    socks5_reply(0x08),
                    error(ErrorKind::Unsupported, "unsupported SOCKS5 address type"),
                )
            }
        },
        Stage::Ipv4 => {
            proof {
                lemma_pow256();
            }
            ip_target(IpAddr::V4(read_be(input, 4) as u32), read_be16(input, 4) as u16)
        },
        Stage::NameLen => reading(Stage::Name { len: input[0] }),
        Stage::Name { len } => {
            let len = len as usize;
            let port = read_be16(input, len) as u16;
            let name = slice_subrange(input, 0, len);
            assert(name@ == input@.take(len as int));
            match core::str::from_utf8(name) {
                Ok(s) => {
                    proof {
                        encode_utf8_decode_utf8(s@);
                    }
                    let step = Step {
                        reply: Vec::new(),
                        next: Next::Connect(TargetAddr::Domain(s.to_string(), port)),
                    };
                    assert(step@ =~= connect_to(Target::Domain(decode_utf8(name@), port)));
                    step
                },
                Err(_) => failing(no_reply(), invalid_input("SOCKS5 domain is not valid UTF-8")),
            }
        },
        _ => ip_target(IpAddr::V6(read_be(input, 16)), read_be16(input, 16) as u16),
    }
}

/// What to do when the bytes are there that `stage` needs.
pub fn step(stage: Stage, auth: Option<&Auth>, input: &[u8]) -> (step: Step)
    requires
        input@.len() == stage.spec_need(),
    ensures
        step@ == step_of(stage, login_view(auth), input@),
{
    match stage {
        Stage::Greeting | Stage::Methods { .. } => socks5_handshake(stage, auth, input),
        Stage::LoginHead | Stage::Username { .. } | Stage::PasswordLen { .. }
        | Stage::Password { .. } => username_password_auth(stage, auth, input),
        _ => read_socks5_request(stage, input),
    }
}

// --- Laws ---

/// How a negotiation stands when a client has sent some bytes and no more.
pub enum End {
    /// It waits for the bytes that the stage needs.
    Wait(Stage),
    /// The client is connected; the bytes left over are for the target.
    Connect(Target, Seq<u8>),
    /// It was given up.
    Fail(Failure),
}

/// A whole negotiation: what was sent to the client and how it stands.
pub struct Talk {
    pub sent: Seq<u8>,
    pub end: End,
}

/// The negotiation from `stage` on with a client that sends `input`.
pub open spec fn talk(stage: Stage, login: Option<Login>, input: Seq<u8>) -> Talk
    decreases stage.rank(),
{
    let need = stage.spec_need() as int;
    let step = step_of(stage, login, input.take(need));
    let rest = input.skip(need);
    if input.len() < need {
        Talk { sent: Seq::empty(), end: End::Wait(stage) }
    } else {
        match step.next {
            NextView::Read(next) => {
                let then = talk(next, login, rest);
                Talk { sent: step.reply + then.sent, end: then.end }
            },
            NextView::Connect(target) => Talk {
                sent: step.reply,
                end: End::Connect(target, rest),
            },
            NextView::Fail(f) => Talk { sent: step.reply, end: End::Fail(f) },
        }
    }
}

/// Every stage leads to a later one, so that a negotiation ends.
pub proof fn law_negotiation_goes_forward(stage: Stage, login: Option<Login>, input: Seq<u8>)
    ensures
        step_of(stage, login, input).next matches NextView::Read(next) ==> next.rank()
            < stage.rank(),
{
}

/// The greeting of a client that offers `methods`.
pub open spec fn greeting(methods: Seq<u8>) -> Seq<u8> {
    seq![0x05u8, methods.len() as u8] + methods
}

/// Whether a greeting can offer `methods`.
pub open spec fn valid_methods(methods: Seq<u8>) -> bool {
    0 < methods.len() <= 0xff
}

/// How a client gives a login.
pub open spec fn login_bytes(login: Login) -> Seq<u8> {
    seq![0x01u8, login.username.len() as u8] + (login.username + (seq![login.password.len() as u8]
        + login.password))
}

/// Whether both parts of a login fit their length bytes.
pub open spec fn valid_login(login: Login) -> bool {
    login.username.len() <= 0xff && login.password.len() <= 0xff
}

/// What one stage does when its bytes stand at the front of the input.
proof fn lemma_step(stage: Stage, login: Option<Login>, front: Seq<u8>, rest: Seq<u8>)
    requires
        front.len() == stage.spec_need(),
    ensures
        ({
            let step = step_of(stage, login, front);
            talk(stage, login, front + rest) == match step.next {
                NextView::Read(next) => Talk {
                    sent: step.reply + talk(next, login, rest).sent,
                    end: talk(next, login, rest).end,
                },
                NextView::Connect(target) => Talk {
                    sent: step.reply,
                    end: End::Connect(target, rest),
                },
                NextView::Fail(f) => Talk { sent: step.reply, end: End::Fail(f) },
            }
        }),
{
    let input = front + rest;
    assert(input.take(front.len() as int) == front);
    assert(input.skip(front.len() as int) == rest);
}

/// The greeting, read from the front of the input.
proof fn lemma_greeting(login: Option<Login>, methods: Seq<u8>, rest: Seq<u8>)
    requires
        valid_methods(methods),
    ensures
        ({
            let step = methods_step(login, methods);
            talk(Stage::Greeting, login, greeting(methods) + rest) == match step.next {
                NextView::Read(next) => Talk {
                    sent: step.reply + talk(next, login, rest).sent,
                    end: talk(next, login, rest).end,
                },
                NextView::Connect(target) => Talk {
                    sent: step.reply,
                    end: End::Connect(target, rest),
                },
                NextView::Fail(f) => Talk { sent: step.reply, end: End::Fail(f) },
            }
        }),
{
    let count = methods.len() as u8;
    let head = seq![0x05u8, count];
    assert(greeting(methods) + rest == head + (methods + rest));
    lemma_step(Stage::Greeting, login, head, methods + rest);
    lemma_step(Stage::Methods { count }, login, methods, rest);
    let t = talk(Stage::Methods { count }, login, methods + rest);
    assert(Seq::<u8>::empty() + t.sent == t.sent);
}

/// A login, read from the front of the input.
proof fn lemma_login(login: Option<Login>, given: Login, rest: Seq<u8>)
    requires
        valid_login(given),
    ensures
        ({
            let known = login is Some && given.username == login->0.username;
            let step = password_step(login, known, given.password);
            talk(Stage::LoginHead, login, login_bytes(given) + rest) == match step.next {
                NextView::Read(next) => Talk {
                    sent: step.reply + talk(next, login, rest).sent,
                    end: talk(next, login, rest).end,
                },
                NextView::Connect(target) => Talk {
                    sent: step.reply,
                    end: End::Connect(target, rest),
                },
                NextView::Fail(f) => Talk { sent: step.reply, end: End::Fail(f) },
            }
        }),
{
    let ulen = given.username.len() as u8;
    let plen = given.password.len() as u8;
    let known = login is Some && given.username == login->0.username;
    let after_password = given.password + rest;
    let after_name = seq![plen] + after_password;
    let after_head = given.username + after_name;
    assert(login_bytes(given) + rest == seq![0x01u8, ulen] + after_head);
    lemma_step(Stage::LoginHead, login, seq![0x01u8, ulen], after_head);
    lemma_step(Stage::Username { len: ulen }, login, given.username, after_name);
    lemma_step(Stage::PasswordLen { known }, login, seq![plen], after_password);
    lemma_step(Stage::Password { known, len: plen }, login, given.password, rest);
    let t = talk(Stage::Password { known, len: plen }, login, after_password);
    assert(Seq::<u8>::empty() + t.sent == t.sent);
}

/// Once the request is due, the login does not matter any more.
proof fn lemma_request_without_login(stage: Stage, login: Option<Login>, input: Seq<u8>)
    requires
        stage.rank() <= 3,
    ensures
        talk(stage, login, input) == talk(stage, None, input),
    decreases stage.rank(),
{
    let need = stage.spec_need() as int;
    if input.len() >= need {
        let step = step_of(stage, login, input.take(need));
        if let NextView::Read(next) = step.next {
            lemma_request_without_login(next, login, input.skip(need));
        }
    }
}

/// A client without a login is served where none is asked for: it is told so,
/// and its request is read.
pub proof fn law_no_login_asked(methods: Seq<u8>, rest: Seq<u8>)
    requires
        valid_methods(methods),
    ensures
        ({
            let t = talk(Stage::Greeting, None, greeting(methods) + rest);
            let then = talk(Stage::Request, None, rest);
            if methods.contains(0x00) {
                t.sent == seq![0x05u8, 0x00u8] + then.sent && t.end == then.end
            } else {
                t.sent == seq![0x05u8, 0xffu8] && (t.end matches End::Fail(f) && f.kind
                    == ErrorKind::PermissionDenied)
            }
        }),
{
    lemma_greeting(None, methods, rest);
}

/// A client that gives the right login is served: it is told that the login is
/// accepted, and its request is read.
pub proof fn law_right_login_is_served(login: Login, methods: Seq<u8>, rest: Seq<u8>)
    requires
        valid_methods(methods),
        methods.contains(0x02),
        valid_login(login),
    ensures
        ({
            let t = talk(
                Stage::Greeting,
                Some(login),
                greeting(methods) + (login_bytes(login) + rest),
            );
            let then = talk(Stage::Request, None, rest);
            &&& t.sent == seq![0x05u8, 0x02u8, 0x01u8, 0x00u8] + then.sent
            &&& t.end == then.end
        }),
{
    lemma_greeting(Some(login), methods, login_bytes(login) + rest);
    lemma_login(Some(login), login, rest);
    lemma_request_without_login(Stage::Request, Some(login), rest);
    let then = talk(Stage::Request, None, rest);
    assert(seq![0x05u8, 0x02u8] + (seq![0x01u8, 0x00u8] + then.sent) == seq![
        0x05u8,
        0x02u8,
        0x01u8,
        0x00u8,
    ] + then.sent);
}

/// A client that gives any other login is told that it is refused, and nothing
/// that it sends after that is looked at.
pub proof fn law_wrong_login_is_refused(
    login: Login,
    given: Login,
    methods: Seq<u8>,
    rest: Seq<u8>,
)
    requires
        valid_methods(methods),
        methods.contains(0x02),
        valid_login(given),
        given.username != login.username || given.password != login.password,
    ensures
        ({
            let t = talk(
                Stage::Greeting,
                Some(login),
                greeting(methods) + (login_bytes(given) + rest),
            );
            &&& t.sent == seq![0x05u8, 0x02u8, 0x01u8, 0x01u8]
            &&& t.end matches End::Fail(f) && f.kind == ErrorKind::PermissionDenied
        }),
{
    lemma_greeting(Some(login), methods, login_bytes(given) + rest);
    lemma_login(Some(login), given, rest);
    assert(seq![0x05u8, 0x02u8] + seq![0x01u8, 0x01u8] == seq![0x05u8, 0x02u8, 0x01u8, 0x01u8]);
}

/// Whether `input` starts with a greeting that offers the login method, then the
/// login `login`, then `rest`.
pub open spec fn gives_login(
    input: Seq<u8>,
    login: Login,
    methods: Seq<u8>,
    rest: Seq<u8>,
) -> bool {
    &&& valid_methods(methods)
    &&& methods.contains(0x02)
    &&& valid_login(login)
    &&& input == greeting(methods) + (login_bytes(login) + rest)
}

/// Nobody gets past the password with another password or user name.
proof fn lemma_password_given(login: Login, known: bool, d: Seq<u8>) -> (rest: Seq<u8>)
    requires
        talk(Stage::PasswordLen { known }, Some(login), d).end is Connect,
    ensures
        known,
        login.password.len() <= 0xff,
        d == seq![login.password.len() as u8] + login.password + rest,
{
    let l = Some(login);
    let plen = d[0];
    let e = d.skip(1);
    assert(d.take(1)[0] == d[0]);
    assert(talk(Stage::Password { known, len: plen }, l, e).end is Connect);
    let password = e.take(plen as int);
    let rest = e.skip(plen as int);
    assert(known && password == login.password);
    assert(d == seq![plen] + password + rest);
    rest
}

/// Nobody gets past the login with another login.
proof fn lemma_login_given(login: Login, b: Seq<u8>) -> (rest: Seq<u8>)
    requires
        talk(Stage::LoginHead, Some(login), b).end is Connect,
    ensures
        valid_login(login),
        b == login_bytes(login) + rest,
{
    let l = Some(login);
    let ulen = b[1];
    let c = b.skip(2);
    assert(b.take(2)[0] == b[0] && b.take(2)[1] == b[1]);
    assert(talk(Stage::Username { len: ulen }, l, c).end is Connect);
    let username = c.take(ulen as int);
    let d = c.skip(ulen as int);
    let known = username == login.username;
    assert(talk(Stage::PasswordLen { known }, l, d).end is Connect);
    let rest = lemma_password_given(login, known, d);
    let password = seq![login.password.len() as u8] + login.password;
    lemma_join(b.take(2), username, password, rest, b);
    assert(b.take(2) == seq![0x01u8, ulen]);
    rest
}

/// Four parts of a text, put together again.
proof fn lemma_join(p: Seq<u8>, q: Seq<u8>, r: Seq<u8>, rest: Seq<u8>, b: Seq<u8>)
    requires
        p.len() + q.len() <= b.len(),
        b.take(p.len() as int) == p,
        b.skip(p.len() as int).take(q.len() as int) == q,
        b.skip(p.len() as int).skip(q.len() as int) == r + rest,
    ensures
        b == (p + (q + r)) + rest,
{
    let c = b.skip(p.len() as int);
    assert(c == q + (r + rest));
    assert(b == p + c);
}

/// Where a login is asked for, nobody is connected who did not give it.
pub proof fn law_login_is_required(login: Login, input: Seq<u8>)
    requires
        talk(Stage::Greeting, Some(login), input).end is Connect,
    ensures
        exists|methods: Seq<u8>, rest: Seq<u8>| #[trigger]
            gives_login(input, login, methods, rest),
{
    let l = Some(login);
    let count = input[1];
    let a = input.skip(2);
    assert(input.take(2)[0] == input[0] && input.take(2)[1] == input[1]);
    assert(talk(Stage::Methods { count }, l, a).end is Connect);
    let methods = a.take(count as int);
    let b = a.skip(count as int);
    assert(talk(Stage::LoginHead, l, b).end is Connect);
    let rest = lemma_login_given(login, b);
    assert(a == methods + b);
    assert(input == greeting(methods) + b) by {
        assert(input == seq![0x05u8, count] + a);
    }
    assert(gives_login(input, login, methods, rest));
}

/// A request with a malformed head is dropped without a reply; another command
/// than CONNECT and another kind of address are answered with the code for it.
/// Nothing that the client sends after that is looked at.
pub proof fn law_other_requests_are_refused(login: Option<Login>, head: Seq<u8>, rest: Seq<u8>)
    requires
        head.len() == 4,
    ensures
        ({
            let t = talk(Stage::Request, login, head + rest);
            if head[0] != 0x05 || head[2] != 0x00 {
                t.sent == Seq::<u8>::empty() && (t.end matches End::Fail(f) && f.kind
                    == ErrorKind::InvalidInput)
            } else if head[1] != 0x01 {
                t.sent == reply_bytes(0x07) && (t.end matches End::Fail(f) && f.kind
                    == ErrorKind::Unsupported)
            } else {
                head[3] != 0x01 && head[3] != 0x03 && head[3] != 0x04 ==> t.sent == reply_bytes(
                    0x08,
                ) && (t.end matches End::Fail(f) && f.kind == ErrorKind::Unsupported)
            }
        }),
{
    lemma_step(Stage::Request, login, head, rest);
}

/// How a client asks to be connected to `target`.
pub open spec fn request_bytes(target: Target) -> Seq<u8> {
    match target {
        Target::Ip(SocketAddr::V4 { ip, port }) => seq![0x05u8, 0x01u8, 0x00u8, 0x01u8] + (be_bytes(
            ip as nat,
            4,
        ) + be16_bytes(port as nat)),
        Target::Ip(SocketAddr::V6 { ip, port, .. }) => seq![0x05u8, 0x01u8, 0x00u8, 0x04u8] + (
        be_bytes(ip as nat, 16) + be16_bytes(port as nat)),
        Target::Domain(name, port) => seq![0x05u8, 0x01u8, 0x00u8, 0x03u8] + (seq![
            encode_utf8(name).len() as u8,
        ] + (encode_utf8(name) + be16_bytes(port as nat))),
    }
}

/// Whether a request can carry `target`: a name has a length byte, and an IPv6
/// address neither flow information nor a scope.
pub open spec fn valid_target(target: Target) -> bool {
    match target {
        Target::Ip(SocketAddr::V4 { .. }) => true,
        Target::Ip(SocketAddr::V6 { flowinfo, scope_id, .. }) => flowinfo == 0 && scope_id == 0,
        Target::Domain(name, _) => encode_utf8(name).len() <= 0xff,
    }
}

/// What is due when the head of a request is at the front of the input.
proof fn lemma_request_head(login: Option<Login>, kind: u8, stage: Stage, rest: Seq<u8>)
    requires
        request_step(seq![0x05u8, 0x01u8, 0x00u8, kind]) == read_on(stage),
    ensures
        talk(Stage::Request, login, seq![0x05u8, 0x01u8, 0x00u8, kind] + rest) == talk(
            stage,
            login,
            rest,
        ),
{
    lemma_step(Stage::Request, login, seq![0x05u8, 0x01u8, 0x00u8, kind], rest);
    let t = talk(stage, login, rest);
    assert(Seq::<u8>::empty() + t.sent == t.sent);
}

proof fn lemma_ipv4_request(login: Option<Login>, ip: u32, port: u16, rest: Seq<u8>)
    ensures
        ({
            let target = Target::Ip(SocketAddr::V4 { ip, port });
            talk(Stage::Request, login, request_bytes(target) + rest) == (Talk {
                sent: Seq::empty(),
                end: End::Connect(target, rest),
            })
        }),
{
    let head = seq![0x05u8, 0x01u8, 0x00u8, 0x01u8];
    let addr = be_bytes(ip as nat, 4);
    let body = addr + be16_bytes(port as nat);
    lemma_pow256();
    lemma_be_value(ip as nat, 4);
    assert((head + body) + rest == head + (body + rest));
    lemma_request_head(login, 0x01, Stage::Ipv4, body + rest);
    lemma_step(Stage::Ipv4, login, body, rest);
    assert(body.take(4) == addr);
    assert(body.subrange(4, 6) == be16_bytes(port as nat));
    lemma_be16_bytes(body, 4, port as nat);
}

proof fn lemma_ipv6_request(login: Option<Login>, ip: u128, port: u16, rest: Seq<u8>)
    ensures
        ({
            let target = Target::Ip(SocketAddr::V6 { ip, port, flowinfo: 0, scope_id: 0 });
            talk(Stage::Request, login, request_bytes(target) + rest) == (Talk {
                sent: Seq::empty(),
                end: End::Connect(target, rest),
            })
        }),
{
    let head = seq![0x05u8, 0x01u8, 0x00u8, 0x04u8];
    let addr = be_bytes(ip as nat, 16);
    let body = addr + be16_bytes(port as nat);
    lemma_pow256();
    lemma_be_value(ip as nat, 16);
    assert((head + body) + rest == head + (body + rest));
    lemma_request_head(login, 0x04, Stage::Ipv6, body + rest);
    lemma_step(Stage::Ipv6, login, body, rest);
    assert(body.take(16) == addr);
    assert(body.subrange(16, 18) == be16_bytes(port as nat));
    lemma_be16_bytes(body, 16, port as nat);
}

proof fn lemma_name_request(login: Option<Login>, name: Seq<char>, port: u16, rest: Seq<u8>)
    requires
        encode_utf8(name).len() <= 0xff,
    ensures
        ({
            let target = Target::Domain(name, port);
            talk(Stage::Request, login, request_bytes(target) + rest) == (Talk {
                sent: Seq::empty(),
                end: End::Connect(target, rest),
            })
        }),
{
    let head = seq![0x05u8, 0x01u8, 0x00u8, 0x03u8];
    let bytes = encode_utf8(name);
    let len = bytes.len() as u8;
    let body = bytes + be16_bytes(port as nat);
    assert((head + (seq![len] + body)) + rest == head + (seq![len] + (body + rest)));
    lemma_request_head(login, 0x03, Stage::NameLen, seq![len] + (body + rest));
    lemma_step(Stage::NameLen, login, seq![len], body + rest);
    lemma_step(Stage::Name { len }, login, body, rest);
    encode_utf8_valid_utf8(name);
    encode_utf8_decode_utf8(name);
    assert(body.take(len as int) == bytes);
    assert(body.subrange(len as int, len + 2) == be16_bytes(port as nat));
    lemma_be16_bytes(body, len as int, port as nat);
    assert(Seq::<u8>::empty() + Seq::<u8>::empty() == Seq::<u8>::empty());
}

/// A request is read as the target that was written, and nothing behind it is
/// taken away.
pub proof fn law_request_is_read(login: Option<Login>, target: Target, rest: Seq<u8>)
    requires
        valid_target(target),
    ensures
        talk(Stage::Request, login, request_bytes(target) + rest) == (Talk {
            sent: Seq::empty(),
            end: End::Connect(target, rest),
        }),
{
    match target {
        Target::Ip(SocketAddr::V4 { ip, port }) => lemma_ipv4_request(login, ip, port, rest),
        Target::Ip(SocketAddr::V6 { ip, port, .. }) => lemma_ipv6_request(login, ip, port, rest),
        Target::Domain(name, port) => lemma_name_request(login, name, port, rest),
    }
}

/// A reply has 22 bytes: the version, the code, a zero, the family of an IPv6
/// address, and zeros.
pub proof fn law_reply_bytes(code: u8)
    ensures
        reply_bytes(code).len() == 22,
        reply_bytes(code)[0] == 5,
        reply_bytes(code)[1] == code,
        reply_bytes(code)[2] == 0,
        reply_bytes(code)[3] == 4,
        forall|i: int| 4 <= i < 22 ==> #[trigger] reply_bytes(code)[i] == 0,
{
}

/// The codes of the errors that clients are told apart.
pub proof fn law_error_codes(kind: ErrorKind)
    ensures
        code_for(kind) == 2 <==> kind == ErrorKind::PermissionDenied,
        code_for(kind) == 5 <==> kind == ErrorKind::ConnectionRefused,
        code_for(kind) == 6 <==> kind == ErrorKind::TimedOut,
        code_for(kind) == 8 <==> kind == ErrorKind::Unsupported,
        code_for(kind) == 4 <==> kind == ErrorKind::AddrNotAvailable || kind
            == ErrorKind::NotFound,
        code_for(kind) == 1 <==> kind == ErrorKind::InvalidInput || kind == ErrorKind::InvalidData
            || kind == ErrorKind::Other,
{
}

/// A greeting of another version, or one without methods, is dropped without a
/// reply.
pub proof fn law_malformed_greeting_is_dropped(
    login: Option<Login>,
    version: u8,
    count: u8,
    rest: Seq<u8>,
)
    requires
        version != 5 || count == 0,
    ensures
        ({
            let t = talk(Stage::Greeting, login, seq![version, count] + rest);
            t.sent == Seq::<u8>::empty() && (t.end matches End::Fail(f) && f.kind
                == ErrorKind::InvalidInput)
        }),
{
    lemma_step(Stage::Greeting, login, seq![version, count], rest);
}

/// Where a login is asked for, a client that does not offer to give one is
/// refused; one that offers it is asked for it.
pub proof fn law_login_method_is_needed(login: Login, methods: Seq<u8>, rest: Seq<u8>)
    requires
        valid_methods(methods),
    ensures
        ({
            let t = talk(Stage::Greeting, Some(login), greeting(methods) + rest);
            let then = talk(Stage::LoginHead, Some(login), rest);
            if methods.contains(0x02) {
                t.sent == seq![0x05u8, 0x02u8] + then.sent && t.end == then.end
            } else {
                t.sent == seq![0x05u8, 0xffu8] && (t.end matches End::Fail(f) && f.kind
                    == ErrorKind::PermissionDenied)
            }
        }),
{
    lemma_greeting(Some(login), methods, rest);
}

/// A login of another version is refused.
pub proof fn law_malformed_login_is_refused(
    login: Option<Login>,
    version: u8,
    len: u8,
    rest: Seq<u8>,
)
    requires
        version != 1,
    ensures
        ({
            let t = talk(Stage::LoginHead, login, seq![version, len] + rest);
            t.sent == seq![0x01u8, 0x01u8] && (t.end matches End::Fail(f) && f.kind
                == ErrorKind::InvalidInput)
        }),
{
    lemma_step(Stage::LoginHead, login, seq![version, len], rest);
}

/// A request for a name that is no text is dropped without a reply.
pub proof fn law_name_that_is_no_text_is_dropped(
    login: Option<Login>,
    name: Seq<u8>,
    port: Seq<u8>,
    rest: Seq<u8>,
)
    requires
        name.len() <= 0xff,
        port.len() == 2,
        !valid_utf8(name),
    ensures
        ({
            let head = seq![0x05u8, 0x01u8, 0x00u8, 0x03u8];
            let t = talk(
                Stage::Request,
                login,
                head + (seq![name.len() as u8] + ((name + port) + rest)),
            );
            t.sent == Seq::<u8>::empty() && (t.end matches End::Fail(f) && f.kind
                == ErrorKind::InvalidInput)
        }),
{
    let len = name.len() as u8;
    let body = name + port;
    lemma_request_head(login, 0x03, Stage::NameLen, seq![len] + (body + rest));
    lemma_step(Stage::NameLen, login, seq![len], body + rest);
    lemma_step(Stage::Name { len }, login, body, rest);
    assert(body.take(len as int) == name);
    assert(Seq::<u8>::empty() + Seq::<u8>::empty() == Seq::<u8>::empty());
}

/// Nothing is decided before the bytes are there: as long as a client has not
/// sent all of what gets it connected, the negotiation waits for more of it, and
/// what was sent to the client is the start of what it will be sent.
pub proof fn law_incomplete_negotiation_waits(
    stage: Stage,
    login: Option<Login>,
    input: Seq<u8>,
    n: int,
)
    requires
        talk(stage, login, input).end is Connect,
        0 <= n < input.len() - talk(stage, login, input).end->Connect_1.len(),
    ensures
        talk(stage, login, input.take(n)).end is Wait,
        talk(stage, login, input.take(n)).sent.is_prefix_of(talk(stage, login, input).sent),
    decreases stage.rank(),
{
    let need = stage.spec_need() as int;
    let part = input.take(n);
    if n >= need {
        assert(part.take(need) == input.take(need));
        assert(part.skip(need) == input.skip(need).take(n - need));
        let step = step_of(stage, login, input.take(need));
        if let NextView::Read(next) = step.next {
            law_incomplete_negotiation_waits(next, login, input.skip(need), n - need);
            let early = talk(next, login, part.skip(need)).sent;
            let late = talk(next, login, input.skip(need)).sent;
            assert((step.reply + early) =~= (step.reply + late).take(
                (step.reply + early).len() as int,
            ));
        }
    }
}

/// The login that is asked for is the one that was set.
pub proof fn law_login_is_kept(auth: Auth)
    ensures
        login_view(Some(&auth)) == Some(
            Login { username: auth.username@, password: auth.password@ },
        ),
        login_view(None) is None,
{
}

} // verus!
