//! The decisions of the server loop.
//!
//! The loop itself lives with whoever owns the sockets: it performs the
//! action it is handed, waits for what happens next and reports that as an
//! event. What to do on each event is decided here, by a function from state
//! and event to the next state and an action.
//!
//! The loop starts by binding, listens until the shutdown signal fires, then
//! drains: it takes no new request, lets the requests in flight finish, and
//! stops.

use vstd::prelude::*;

verus! {

/// Where to listen.
#[derive(Clone, Copy, Debug, PartialEq, Eq)]
pub struct Endpoint {
    pub host: [u8; 4],
    pub port: u16,
}

/// What the loop reports to its caller when it stops.
#[derive(Clone, Copy, Debug, PartialEq, Eq, Structural)]
pub enum Outcome {
    /// Shut down on the signal, with nothing left in flight.
    Success,
    /// The address could not be bound.
    BindFailed,
    /// The transport failed while the pending work was being finished.
    DrainFailed,
}

/// Where the loop stands.
#[derive(Clone, Copy, Debug, PartialEq, Eq, Structural)]
pub enum ServerState {
    /// The address is being bound.
    Starting,
    /// Requests are accepted and served.
    Listening { in_flight: u64 },
    /// The signal has fired: no request is accepted any more, those in
    /// flight run on.
    Draining { in_flight: u64, listener_open: bool },
    /// The loop has returned.
    Stopped { outcome: Outcome },
}

/// What can happen to the loop.
#[derive(Clone, Copy, Debug, PartialEq, Eq, Structural)]
pub enum Event {
    /// The address was bound.
    Bound,
    /// The address could not be bound.
    BindFailed,
    /// A request came in.
    Accepted,
    /// A request in flight got its whole response.
    Completed,
    /// A request in flight ended on a transport error of its own.
    Aborted,
    /// The shutdown signal fired.
    Shutdown,
    /// The listener was closed and its port released.
    ListenerClosed,
    /// The transport failed while the pending work was being finished.
    DrainFailed,
}

/// What the loop is to do next. After anything but `Return` it waits for the
/// next event.
#[derive(Clone, Copy, Debug, PartialEq, Eq)]
pub enum Action {
    /// Bind the listener.
    Bind { endpoint: Endpoint },
    /// Nothing to do but wait.
    Wait,
    /// Hand the request that came in to the responder.
    Serve,
    /// Drop the request that came in, unserved.
    Refuse,
    /// Close the listener and report `ListenerClosed`.
    StopAccepting,
    /// Hand control back to the caller with this outcome.
    Return { outcome: Outcome },
}

/// The loopback address with the given port.
pub open spec fn loopback(port: u16) -> Endpoint {
    Endpoint { host: [127u8, 0u8, 0u8, 1u8], port }
}

/// One less, but never below zero.
pub open spec fn one_less(in_flight: u64) -> u64 {
    if in_flight > 0 {
        (in_flight - 1) as u64
    } else {
        0
    }
}

/// The state after `event`, and what the loop is to do.
pub open spec fn next(state: ServerState, event: Event) -> (ServerState, Action) {
    match state {
        ServerState::Starting => match event {
            Event::Bound => (ServerState::Listening { in_flight: 0 }, Action::Wait),
            Event::BindFailed => (
                ServerState::Stopped { outcome: Outcome::BindFailed },
                Action::Return { outcome: Outcome::BindFailed },
            ),
            _ => (state, Action::Wait),
        },
        ServerState::Listening { in_flight } => match event {
            Event::Accepted => if in_flight < u64::MAX {
                (ServerState::Listening { in_flight: (in_flight + 1) as u64 }, Action::Serve)
            } else {
                (state, Action::Refuse)
            },
            Event::Completed | Event::Aborted => (
                ServerState::Listening { in_flight: one_less(in_flight) },
                Action::Wait,
            ),
            Event::Shutdown => (
                ServerState::Draining { in_flight, listener_open: true },
                Action::StopAccepting,
            ),
            _ => (state, Action::Wait),
        },
        ServerState::Draining { in_flight, listener_open } => match event {
            Event::Accepted => (state, Action::Refuse),
            Event::Completed | Event::Aborted => if one_less(in_flight) == 0 && !listener_open {
                (
                    ServerState::Stopped { outcome: Outcome::Success },
                    Action::Return { outcome: Outcome::Success },
                )
            } else {
                (
                    ServerState::Draining { in_flight: one_less(in_flight), listener_open },
                    Action::Wait,
                )
            },
            Event::ListenerClosed => if in_flight == 0 {
                (
                    ServerState::Stopped { outcome: Outcome::Success },
                    Action::Return { outcome: Outcome::Success },
                )
            } else {
                (ServerState::Draining { in_flight, listener_open: false }, Action::Wait)
            },
            Event::DrainFailed => (
                ServerState::Stopped { outcome: Outcome::DrainFailed },
                Action::Return { outcome: Outcome::DrainFailed },
            ),
            _ => (state, Action::Wait),
        },
        ServerState::Stopped { outcome } => (state, Action::Return { outcome }),
    }
}

/// The state after a run of events.
pub open spec fn run(state: ServerState, events: Seq<Event>) -> ServerState
    decreases events.len(),
{
    if events.len() == 0 {
        state
    } else {
        run(next(state, events[0]).0, events.drop_first())
    }
}

/// How many requests are in flight.
pub open spec fn in_flight(state: ServerState) -> nat {
    match state {
        ServerState::Listening { in_flight } => in_flight as nat,
        ServerState::Draining { in_flight, .. } => in_flight as nat,
        _ => 0,
    }
}

/// How many requests were handed to the responder during a run of events.
pub open spec fn served(state: ServerState, events: Seq<Event>) -> nat
    decreases events.len(),
{
    if events.len() == 0 {
        0
    } else {
        let (after, action) = next(state, events[0]);
        (if action == Action::Serve {
            1nat
        } else {
            0nat
        }) + served(after, events.drop_first())
    }
}

/// How many requests in flight came to their end during a run of events.
pub open spec fn finished(state: ServerState, events: Seq<Event>) -> nat
    decreases events.len(),
{
    if events.len() == 0 {
        0
    } else {
        let ended = (events[0] == Event::Completed || events[0] == Event::Aborted) && in_flight(
            state,
        ) > 0;
        (if ended {
            1nat
        } else {
            0nat
        }) + finished(next(state, events[0]).0, events.drop_first())
    }
}

impl ServerState {
    /// The loop before anything has happened, and its first action: to bind
    /// the loopback address with the given port.
    pub fn start(port: u16) -> (begin: (ServerState, Action))
        ensures
            begin.0 == ServerState::Starting,
            begin.1 == (Action::Bind { endpoint: loopback(port) }),
    {
        (ServerState::Starting, Action::Bind { endpoint: Endpoint { host: [127, 0, 0, 1], port } })
    }

    /// Takes one event: the state after it, and what the loop is to do.
    pub fn step(self, event: Event) -> (after: (ServerState, Action))
        ensures
            after == next(self, event),
    {
        match self {
            ServerState::Starting => match event {
                Event::Bound => (ServerState::Listening { in_flight: 0 }, Action::Wait),
                Event::BindFailed => (
                    ServerState::Stopped { outcome: Outcome::BindFailed },
                    Action::Return { outcome: Outcome::BindFailed },
                ),
                _ => (self, Action::Wait),
            },
            ServerState::Listening { in_flight } => match event {
                Event::Accepted => if in_flight < u64::MAX {
                    (ServerState::Listening { in_flight: in_flight + 1 }, Action::Serve)
                } else {
                    (self, Action::Refuse)
                },
                Event::Completed | Event::Aborted => (
                    ServerState::Listening { in_flight: in_flight.saturating_sub(1) },
                    Action::Wait,
                ),
                Event::Shutdown => (
                    ServerState::Draining { in_flight, listener_open: true },
                    Action::StopAccepting,
                ),
                _ => (self, Action::Wait),
            },
            ServerState::Draining { in_flight, listener_open } => match event {
                Event::Accepted => (self, Action::Refuse),
                Event::Completed | Event::Aborted => {
                    let left = in_flight.saturating_sub(1);
                    if left == 0 && !listener_open {
                        (
                            ServerState::Stopped { outcome: Outcome::Success },
                            Action::Return { outcome: Outcome::Success },
                        )
                    } else {
                        (ServerState::Draining { in_flight: left, listener_open }, Action::Wait)
                    }
                },
                Event::ListenerClosed => if in_flight == 0 {
                    (
                        ServerState::Stopped { outcome: Outcome::Success },
                        Action::Return { outcome: Outcome::Success },
                    )
                } else {
                    (ServerState::Draining { in_flight, listener_open: false }, Action::Wait)
                },
                Event::DrainFailed => (
                    ServerState::Stopped { outcome: Outcome::DrainFailed },
                    Action::Return { outcome: Outcome::DrainFailed },
                ),
                _ => (self, Action::Wait),
            },
            ServerState::Stopped { outcome } => (self, Action::Return { outcome }),
        }
    }

    /// Whether the loop has returned, and with what.
    pub fn outcome(self) -> (outcome: Option<Outcome>)
        ensures
            outcome == match self {
                ServerState::Stopped { outcome } => Some(outcome),
                _ => None::<Outcome>,
            },
    {
        match self {
            ServerState::Stopped { outcome } => Some(outcome),
            _ => None,
        }
    }
}

/// The signal is a one-shot trigger: once it has been taken, taking it again
/// changes nothing and asks for nothing but to go on, or to return where the
/// loop has stopped.
pub proof fn lemma_shutdown_is_idempotent(state: ServerState)
    ensures
        next(next(state, Event::Shutdown).0, Event::Shutdown).0 == next(
            state,
            Event::Shutdown,
        ).0,
        next(next(state, Event::Shutdown).0, Event::Shutdown).1 != Action::StopAccepting,
{
}

/// The loop starts to drain exactly when the signal fires while it listens.
pub proof fn lemma_draining_begins_on_shutdown(state: ServerState, event: Event)
    requires
        !(state is Draining),
    ensures
        next(state, event).0 is Draining <==> state is Listening && event == Event::Shutdown,
{
}

/// A stopped loop stays stopped, with the outcome it stopped with.
pub proof fn lemma_stopped_is_final(state: ServerState, events: Seq<Event>)
    requires
        state is Stopped,
    ensures
        run(state, events) == state,
        served(state, events) == 0,
        finished(state, events) == 0,
    decreases events.len(),
{
    if events.len() > 0 {
        lemma_stopped_is_final(state, events.drop_first());
    }
}

/// Once the signal has been taken, no request is served any more, whatever
/// happens, and the loop never listens again.
pub proof fn lemma_nothing_served_after_shutdown(state: ServerState, events: Seq<Event>)
    requires
        state is Draining || state is Stopped,
    ensures
        served(state, events) == 0,
        run(state, events) is Draining || run(state, events) is Stopped,
    decreases events.len(),
{
    if events.len() > 0 {
        lemma_nothing_served_after_shutdown(next(state, events[0]).0, events.drop_first());
    }
}

/// A loop that stops with success has let every request end that was in
/// flight or that it served on the way.
pub proof fn lemma_success_leaves_nothing_in_flight(state: ServerState, events: Seq<Event>)
    requires
        run(state, events) == (ServerState::Stopped { outcome: Outcome::Success }),
    ensures
        in_flight(state) + served(state, events) == finished(state, events),
    decreases events.len(),
{
    if events.len() > 0 {
        let after = next(state, events[0]).0;
        if after is Stopped {
            lemma_stopped_is_final(after, events.drop_first());
        }
        lemma_success_leaves_nothing_in_flight(after, events.drop_first());
    }
}

/// A loop that stops with success has closed its listener first: the signal
/// was taken and the listener reported closed.
pub proof fn lemma_success_follows_shutdown(state: ServerState, events: Seq<Event>)
    requires
        state is Starting || state is Listening,
        run(state, events) == (ServerState::Stopped { outcome: Outcome::Success }),
    ensures
        exists|i: int, j: int|
            0 <= i < j < events.len() && events[i] == Event::Shutdown && events[j]
                == Event::ListenerClosed,
    decreases events.len(),
{
    if events.len() > 0 {
        let after = next(state, events[0]).0;
        let rest = events.drop_first();
        if after is Starting || after is Listening {
            lemma_success_follows_shutdown(after, rest);
            let (i, j) = choose|i: int, j: int|
                0 <= i < j < rest.len() && rest[i] == Event::Shutdown && rest[j]
                    == Event::ListenerClosed;
            assert(events[i + 1] == Event::Shutdown && events[j + 1] == Event::ListenerClosed);
        } else if after is Stopped {
            lemma_stopped_is_final(after, rest);
        } else {
            assert(events[0] == Event::Shutdown);
            lemma_closed_before_success(after, rest);
            let j = choose|j: int| 0 <= j < rest.len() && rest[j] == Event::ListenerClosed;
            assert(events[j + 1] == Event::ListenerClosed);
        }
    }
}

/// A draining loop whose listener is still open stops with success only
/// after the listener was reported closed.
pub proof fn lemma_closed_before_success(state: ServerState, events: Seq<Event>)
    requires
        state matches ServerState::Draining { listener_open, .. } && listener_open,
        run(state, events) == (ServerState::Stopped { outcome: Outcome::Success }),
    ensures
        exists|j: int| 0 <= j < events.len() && events[j] == Event::ListenerClosed,
    decreases events.len(),
{
    if events.len() > 0 {
        let after = next(state, events[0]).0;
        let rest = events.drop_first();
        if events[0] == Event::ListenerClosed {
            assert(events[0] == Event::ListenerClosed);
        } else if after is Stopped {
            lemma_stopped_is_final(after, rest);
        } else {
            lemma_closed_before_success(after, rest);
            let j = choose|j: int| 0 <= j < rest.len() && rest[j] == Event::ListenerClosed;
            assert(events[j + 1] == Event::ListenerClosed);
        }
    }
}

} // verus!
