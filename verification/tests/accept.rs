use ipv6_pool_proxy::accept::{AcceptAction, AcceptEvent, AcceptLoop};
use ipv6_pool_proxy::config::{parse_args, Command, Config};
use ipv6_pool_proxy::net::IpAddr;

const KNOWN: AcceptEvent = AcceptEvent::Accepted(IpAddr::V6(0xffff_0102_0304));
const UNKNOWN: AcceptEvent = AcceptEvent::Accepted(IpAddr::V4(0x0102_0305));
const FREE: AcceptEvent = AcceptEvent::Place(true);
const TAKEN: AcceptEvent = AcceptEvent::Place(false);

fn config() -> Config {
    let args = ["-p", "::/0", "-w", "ip.conf"].map(|w| w.to_string()).to_vec();
    match parse_args(&args) {
        Ok(Command::Run(options)) => {
            options.configure(None, Some(Ok("1.2.3.4".to_string()))).unwrap()
        }
        _ => panic!(),
    }
}

#[test]
fn waits_double_up_to_a_second_and_start_again() {
    let c = config();
    let mut state = AcceptLoop::new();
    for ms in [5, 10, 20, 40, 80, 160, 320, 640, 1000, 1000] {
        assert_eq!(state.on_event(AcceptEvent::Failed, &c), AcceptAction::Wait(ms));
    }
    state.on_event(UNKNOWN, &c);
    assert_eq!(state.on_event(AcceptEvent::Failed, &c), AcceptAction::Wait(5));
    assert_eq!(state.on_event(AcceptEvent::Failed, &c), AcceptAction::Wait(10));
}

#[test]
fn asking_for_a_place_leaves_the_wait_alone() {
    let c = config();
    let mut state = AcceptLoop::new();
    state.on_event(KNOWN, &c);
    assert_eq!(state.on_event(AcceptEvent::Failed, &c), AcceptAction::Wait(5));
    assert_eq!(state.on_event(FREE, &c), AcceptAction::Serve);
    assert_eq!(state.on_event(AcceptEvent::Failed, &c), AcceptAction::Wait(10));
}

#[test]
fn clients_are_served_denied_or_dropped() {
    let c = config();
    let mut state = AcceptLoop::new();
    assert_eq!(state.on_event(KNOWN, &c), AcceptAction::AskPlace);
    assert_eq!(state.on_event(FREE, &c), AcceptAction::Serve);
    assert_eq!(state.on_event(KNOWN, &c), AcceptAction::AskPlace);
    assert_eq!(state.on_event(TAKEN, &c), AcceptAction::Overload);
    assert_eq!(state.on_event(UNKNOWN, &c), AcceptAction::Deny);
}

#[test]
fn place_without_a_client_serves_nobody() {
    let c = config();
    let mut state = AcceptLoop::new();
    assert_eq!(state.on_event(FREE, &c), AcceptAction::Deny);
    state.on_event(UNKNOWN, &c);
    assert_eq!(state.on_event(FREE, &c), AcceptAction::Deny);
    state.on_event(KNOWN, &c);
    assert_eq!(state.on_event(FREE, &c), AcceptAction::Serve);
    assert_eq!(state.on_event(FREE, &c), AcceptAction::Deny);
    state.on_event(KNOWN, &c);
    state.on_event(UNKNOWN, &c);
    assert_eq!(state.on_event(TAKEN, &c), AcceptAction::Deny);
}
