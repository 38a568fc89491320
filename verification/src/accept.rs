//! The accept loop as a state machine: whom to serve, whom to turn away, and how
//! long to wait after an error.
use crate::config::Config;
use crate::config::ConfigView;
use crate::net::IpAddr;
use vstd::arithmetic::power2::lemma2_to64;
use vstd::arithmetic::power2::lemma_pow2_unfold;
use vstd::arithmetic::power2::pow2;
use vstd::prelude::*;

verus! {

/// How long to wait after the first error in a row, in milliseconds.
pub const ACCEPT_BACKOFF_MIN_MS: u64 = 5;

/// How long to wait at most, in milliseconds.
pub const ACCEPT_BACKOFF_MAX_MS: u64 = 1000;

/// What happened.
#[derive(Clone, Copy, Debug, PartialEq, Eq, Structural)]
pub enum AcceptEvent {
    /// A client connected from this address.
    Accepted(IpAddr),
    /// A place to serve the client was asked for: whether there was one.
    Place(bool),
    /// No client could be accepted.
    Failed,
}

/// What to do about it.
#[derive(Clone, Copy, Debug, PartialEq, Eq, Structural)]
pub enum AcceptAction {
    /// Serve nobody, and close the connection if there is one: the whitelist does
    /// not admit the client, or no client waits for the place.
    Deny,
    /// Ask for a place to serve the client.
    AskPlace,
    /// Serve the client.
    Serve,
    /// Close the connection: too many clients are being served.
    Overload,
    /// Wait so many milliseconds.
    Wait(u64),
}

/// The state of an accept loop: how long to wait after the next error, and
/// whether a client waits for a place.
#[derive(Debug)]
pub struct AcceptLoop {
    backoff_ms: u64,
    waiting: bool,
}

/// The mathematical view of [`AcceptLoop`].
pub struct AcceptState {
    /// How long to wait after the next error, in milliseconds.
    pub backoff: int,
    /// Whether a client that may connect waits for a place.
    pub waiting: bool,
}

impl View for AcceptLoop {
    type V = AcceptState;

    closed spec fn view(&self) -> AcceptState {
        AcceptState { backoff: self.backoff_ms as int, waiting: self.waiting }
    }
}

/// How long to wait after an error when `before` errors in a row came before it:
/// twice as long each time, up to the most.
pub open spec fn wait_after(before: nat) -> int
    decreases before,
{
    if before == 0 {
        ACCEPT_BACKOFF_MIN_MS as int
    } else {
        let twice = 2 * wait_after((before - 1) as nat);
        if twice < ACCEPT_BACKOFF_MAX_MS {
            twice
        } else {
            ACCEPT_BACKOFF_MAX_MS as int
        }
    }
}

/// What to do about `event` in the state `state`. A client is only served for
/// whom a place was asked.
pub open spec fn accept_action(
    event: AcceptEvent,
    state: AcceptState,
    allowed: bool,
) -> AcceptAction {
    match event {
        AcceptEvent::Accepted(_) => if allowed {
            AcceptAction::AskPlace
        } else {
            AcceptAction::Deny
        },
        AcceptEvent::Place(free) => if !state.waiting {
            AcceptAction::Deny
        } else if free {
            AcceptAction::Serve
        } else {
            AcceptAction::Overload
        },
        AcceptEvent::Failed => AcceptAction::Wait(state.backoff as u64),
    }
}

/// The state once `event` happened.
pub open spec fn next_state(event: AcceptEvent, state: AcceptState, allowed: bool) -> AcceptState {
    match event {
        AcceptEvent::Accepted(_) => AcceptState {
            backoff: ACCEPT_BACKOFF_MIN_MS as int,
            waiting: allowed,
        },
        AcceptEvent::Place(_) => AcceptState { waiting: false, ..state },
        AcceptEvent::Failed => AcceptState {
            backoff: if 2 * state.backoff < ACCEPT_BACKOFF_MAX_MS {
                2 * state.backoff
            } else {
                ACCEPT_BACKOFF_MAX_MS as int
            },
            ..state
        },
    }
}

/// Whether `event` is a client that `config` admits.
pub open spec fn event_allowed(event: AcceptEvent, config: ConfigView) -> bool {
    event matches AcceptEvent::Accepted(ip) && config.admits(ip)
}

impl AcceptState {
    /// The state before anything happened.
    pub open spec fn initial() -> AcceptState {
        AcceptState { backoff: wait_after(0), waiting: false }
    }
}

impl AcceptLoop {
    #[verifier::type_invariant]
    spec fn inv(self) -> bool {
        ACCEPT_BACKOFF_MIN_MS <= self.backoff_ms <= ACCEPT_BACKOFF_MAX_MS
    }

    /// An accept loop before anything happened.
    pub fn new() -> (state: Self)
        ensures
            state@ == AcceptState::initial(),
    {
        AcceptLoop { backoff_ms: ACCEPT_BACKOFF_MIN_MS, waiting: false }
    }

    /// Takes notice of `event` and says what to do about it.
    pub fn on_event(&mut self, event: AcceptEvent, config: &Config) -> (action: AcceptAction)
        ensures
            action == accept_action(event, old(self)@, event_allowed(event, config@)),
            final(self)@ == next_state(event, old(self)@, event_allowed(event, config@)),
            action matches AcceptAction::Wait(ms) ==> ACCEPT_BACKOFF_MIN_MS <= ms
                <= ACCEPT_BACKOFF_MAX_MS && ms == old(self)@.backoff,
    {
        proof {
            use_type_invariant(&*self);
        }
        match event {
            AcceptEvent::Accepted(ip) => {
                self.backoff_ms = ACCEPT_BACKOFF_MIN_MS;
                self.waiting = config.allows(ip);
                if self.waiting {
                    AcceptAction::AskPlace
                } else {
                    AcceptAction::Deny
                }
            },
            AcceptEvent::Place(free) => {
                let waiting = self.waiting;
                self.waiting = false;
                if !waiting {
                    AcceptAction::Deny
                } else if free {
                    AcceptAction::Serve
                } else {
                    AcceptAction::Overload
                }
            },
            AcceptEvent::Failed => {
                let ms = self.backoff_ms;
                let twice = ms * 2;
                self.backoff_ms = if twice < ACCEPT_BACKOFF_MAX_MS {
                    twice
                } else {
                    ACCEPT_BACKOFF_MAX_MS
                };
                AcceptAction::Wait(ms)
            },
        }
    }
}

// --- Laws ---

/// The state once `events` happened one after another, from the start.
pub open spec fn state_after(events: Seq<AcceptEvent>, config: ConfigView) -> AcceptState
    decreases events.len(),
{
    if events.len() == 0 {
        AcceptState::initial()
    } else {
        next_state(
            events.last(),
            state_after(events.drop_last(), config),
            event_allowed(events.last(), config),
        )
    }
}

/// What is done about event `i` of `events`.
pub open spec fn action_at(events: Seq<AcceptEvent>, i: int, config: ConfigView) -> AcceptAction {
    accept_action(
        events[i],
        state_after(events.take(i), config),
        event_allowed(events[i], config),
    )
}

/// How many of `events` are errors.
pub open spec fn errors_in(events: Seq<AcceptEvent>) -> nat
    decreases events.len(),
{
    if events.len() == 0 {
        0
    } else {
        errors_in(events.drop_last()) + if events.last() is Failed {
            1nat
        } else {
            0nat
        }
    }
}

/// The next wait is the one for the errors since a client was last accepted, or
/// since the start where none was, whatever came before that.
pub proof fn law_backoff_counts_errors(
    before: Seq<AcceptEvent>,
    since: Seq<AcceptEvent>,
    config: ConfigView,
)
    requires
        before.len() == 0 || before.last() is Accepted,
        forall|i: int| 0 <= i < since.len() ==> !((#[trigger] since[i]) is Accepted),
    ensures
        state_after(before + since, config).backoff == wait_after(errors_in(since)),
    decreases since.len(),
{
    if since.len() == 0 {
        assert(before + since == before);
    } else {
        let front = since.drop_last();
        assert((before + since).drop_last() == before + front);
        assert((before + since).last() == since.last());
        assert(!(since[since.len() - 1] is Accepted));
        assert forall|i: int| 0 <= i < front.len() implies !((#[trigger] front[i]) is Accepted) by {
            assert(front[i] == since[i]);
        }
        law_backoff_counts_errors(before, front, config);
    }
}

/// Whether event `j` of `events` is a client that may connect, and nothing but
/// errors came after it.
pub open spec fn client_waits(events: Seq<AcceptEvent>, j: int, config: ConfigView) -> bool {
    &&& 0 <= j < events.len()
    &&& events[j] is Accepted
    &&& event_allowed(events[j], config)
    &&& forall|k: int| j < k < events.len() ==> (#[trigger] events[k]) is Failed
}

proof fn lemma_waiting(events: Seq<AcceptEvent>, config: ConfigView)
    ensures
        state_after(events, config).waiting <==> exists|j: int| client_waits(events, j, config),
    decreases events.len(),
{
    if events.len() > 0 {
        let n = events.len() - 1;
        let front = events.drop_last();
        lemma_waiting(front, config);
        assert forall|j: int| j < n && events[n] is Failed implies client_waits(front, j, config)
            == client_waits(events, j, config) by {
            if client_waits(events, j, config) {
                assert forall|k: int| j < k < front.len() implies (#[trigger] front[k])
                    is Failed by {
                    assert(front[k] == events[k]);
                }
            }
            if client_waits(front, j, config) {
                assert forall|k: int| j < k < events.len() implies (#[trigger] events[k])
                    is Failed by {
                    if k < n {
                        assert(front[k] == events[k]);
                    }
                }
            }
        }
        match events[n] {
            AcceptEvent::Accepted(_) => {
                if event_allowed(events[n], config) {
                    assert(client_waits(events, n, config));
                }
            },
            AcceptEvent::Place(_) => {},
            AcceptEvent::Failed => {
                if exists|j: int| client_waits(front, j, config) {
                    let j = choose|j: int| client_waits(front, j, config);
                    assert(client_waits(events, j, config));
                }
                if exists|j: int| client_waits(events, j, config) {
                    let j = choose|j: int| client_waits(events, j, config);
                    assert(client_waits(front, j, config));
                }
            },
        }
    }
}

/// A client is served exactly if it may connect, no other client came after it
/// and the first place asked for since was free. In particular nobody is ever
/// served whom the whitelist keeps out, and nobody is served twice.
pub proof fn law_only_admitted_clients_are_served(
    events: Seq<AcceptEvent>,
    i: int,
    config: ConfigView,
)
    requires
        0 <= i < events.len(),
    ensures
        action_at(events, i, config) == AcceptAction::Serve <==> events[i] == AcceptEvent::Place(
            true,
        ) && exists|j: int| client_waits(events.take(i), j, config),
{
    lemma_waiting(events.take(i), config);
}

/// The wait doubles with every error in a row until it reaches the most.
pub proof fn law_backoff_doubles(before: nat)
    ensures
        wait_after(before) == if 5 * pow2(before) < 1000 {
            5 * pow2(before) as int
        } else {
            1000
        },
    decreases before,
{
    lemma2_to64();
    if before > 0 {
        law_backoff_doubles((before - 1) as nat);
        lemma_pow2_unfold(before);
    }
}

/// A client that connects is turned away exactly if the whitelist does not admit
/// it; for any other a place is asked for, whatever came before.
pub proof fn law_whitelist_decides_at_once(
    events: Seq<AcceptEvent>,
    i: int,
    ip: IpAddr,
    config: ConfigView,
)
    requires
        0 <= i < events.len(),
        events[i] == AcceptEvent::Accepted(ip),
    ensures
        action_at(events, i, config) == AcceptAction::AskPlace <==> config.admits(ip),
        action_at(events, i, config) == AcceptAction::Deny <==> !config.admits(ip),
{
}

/// A client for whom there is no place is dropped, and nobody else is.
pub proof fn law_overload_drops_the_waiting_client(
    events: Seq<AcceptEvent>,
    i: int,
    config: ConfigView,
)
    requires
        0 <= i < events.len(),
    ensures
        action_at(events, i, config) == AcceptAction::Overload <==> events[i]
            == AcceptEvent::Place(false) && exists|j: int|
            client_waits(events.take(i), j, config),
{
    lemma_waiting(events.take(i), config);
}

/// After an error the loop waits as long as the errors since a client was last
/// accepted, or since the start, ask for.
pub proof fn law_error_is_followed_by_its_wait(
    before: Seq<AcceptEvent>,
    since: Seq<AcceptEvent>,
    after: Seq<AcceptEvent>,
    config: ConfigView,
)
    requires
        before.len() == 0 || before.last() is Accepted,
        forall|i: int| 0 <= i < since.len() ==> !((#[trigger] since[i]) is Accepted),
    ensures
        action_at(
            (before + since).push(AcceptEvent::Failed) + after,
            (before.len() + since.len()) as int,
            config,
        ) matches AcceptAction::Wait(ms) && ms == if 5 * pow2(errors_in(since)) < 1000 {
            5 * pow2(errors_in(since)) as int
        } else {
            1000
        },
{
    let n = (before.len() + since.len()) as int;
    let events = (before + since).push(AcceptEvent::Failed) + after;
    assert(events.take(n) == before + since);
    law_backoff_counts_errors(before, since, config);
    law_backoff_doubles(errors_in(since));
}

} // verus!
