use sidecar_metrics::server::{Action, Endpoint, Event, Outcome, ServerState};

fn stopped(outcome: Outcome) -> ServerState {
    ServerState::Stopped { outcome }
}

#[test]
fn the_loop_starts_by_binding_the_loopback_address() {
    let (state, action) = ServerState::start(9090);
    assert_eq!(state, ServerState::Starting);
    assert_eq!(action, Action::Bind { endpoint: Endpoint { host: [127, 0, 0, 1], port: 9090 } });
    assert_eq!(state.outcome(), None);
}

#[test]
fn a_bound_listener_listens() {
    let (state, action) = ServerState::Starting.step(Event::Bound);
    assert_eq!(state, ServerState::Listening { in_flight: 0 });
    assert_eq!(action, Action::Wait);
}

#[test]
fn a_failed_bind_stops_the_loop() {
    let (state, action) = ServerState::Starting.step(Event::BindFailed);
    assert_eq!(state, stopped(Outcome::BindFailed));
    assert_eq!(action, Action::Return { outcome: Outcome::BindFailed });
    assert_eq!(state.outcome(), Some(Outcome::BindFailed));
}

#[test]
fn nothing_else_moves_a_starting_loop() {
    let events = [
        Event::Accepted,
        Event::Completed,
        Event::Aborted,
        Event::Shutdown,
        Event::ListenerClosed,
        Event::DrainFailed,
    ];
    for event in events {
        assert_eq!(ServerState::Starting.step(event), (ServerState::Starting, Action::Wait));
    }
}

#[test]
fn requests_are_served_while_listening() {
    let state = ServerState::Listening { in_flight: 0 };
    let (state, action) = state.step(Event::Accepted);
    assert_eq!(action, Action::Serve);
    assert_eq!(state, ServerState::Listening { in_flight: 1 });
    let (state, action) = state.step(Event::Accepted);
    assert_eq!(action, Action::Serve);
    assert_eq!(state, ServerState::Listening { in_flight: 2 });
    let (state, action) = state.step(Event::Completed);
    assert_eq!(action, Action::Wait);
    assert_eq!(state, ServerState::Listening { in_flight: 1 });
}

#[test]
fn a_request_that_breaks_off_does_not_stop_the_loop() {
    let state = ServerState::Listening { in_flight: 2 };
    let (state, action) = state.step(Event::Aborted);
    assert_eq!(action, Action::Wait);
    assert_eq!(state, ServerState::Listening { in_flight: 1 });
    let (state, action) = state.step(Event::Accepted);
    assert_eq!(action, Action::Serve);
    assert_eq!(state, ServerState::Listening { in_flight: 2 });
}

#[test]
fn an_end_without_a_request_is_passed_over() {
    let state = ServerState::Listening { in_flight: 0 };
    assert_eq!(state.step(Event::Completed), (state, Action::Wait));
    assert_eq!(state.step(Event::Aborted), (state, Action::Wait));
}

#[test]
fn a_full_loop_refuses_one_more_request() {
    let state = ServerState::Listening { in_flight: u64::MAX };
    assert_eq!(state.step(Event::Accepted), (state, Action::Refuse));
    let nearly = ServerState::Listening { in_flight: u64::MAX - 1 };
    assert_eq!(nearly.step(Event::Accepted), (state, Action::Serve));
}

#[test]
fn events_out_of_place_do_not_move_a_listening_loop() {
    let state = ServerState::Listening { in_flight: 3 };
    for event in [Event::Bound, Event::BindFailed, Event::ListenerClosed, Event::DrainFailed] {
        assert_eq!(state.step(event), (state, Action::Wait));
    }
}

#[test]
fn the_signal_starts_the_drain() {
    let state = ServerState::Listening { in_flight: 2 };
    let (state, action) = state.step(Event::Shutdown);
    assert_eq!(action, Action::StopAccepting);
    assert_eq!(state, ServerState::Draining { in_flight: 2, listener_open: true });
    assert_eq!(state.outcome(), None);
}

#[test]
fn shutdown_with_nothing_in_flight_stops_with_success() {
    let (state, _) = ServerState::start(1337);
    let (state, _) = state.step(Event::Bound);
    let (state, action) = state.step(Event::Shutdown);
    assert_eq!(action, Action::StopAccepting);
    assert_eq!(state, ServerState::Draining { in_flight: 0, listener_open: true });
    let (state, action) = state.step(Event::ListenerClosed);
    assert_eq!(action, Action::Return { outcome: Outcome::Success });
    assert_eq!(state, stopped(Outcome::Success));
    assert_eq!(state.outcome(), Some(Outcome::Success));
}

#[test]
fn a_request_in_flight_is_finished_before_the_loop_returns() {
    let (state, _) = ServerState::start(1337);
    let (state, _) = state.step(Event::Bound);
    let (state, action) = state.step(Event::Accepted);
    assert_eq!(action, Action::Serve);
    let (state, action) = state.step(Event::Shutdown);
    assert_eq!(action, Action::StopAccepting);
    let (state, action) = state.step(Event::ListenerClosed);
    assert_eq!(action, Action::Wait);
    assert_eq!(state, ServerState::Draining { in_flight: 1, listener_open: false });
    assert_eq!(state.outcome(), None);
    let (state, action) = state.step(Event::Completed);
    assert_eq!(action, Action::Return { outcome: Outcome::Success });
    assert_eq!(state, stopped(Outcome::Success));
}

#[test]
fn the_last_request_may_end_before_the_listener_is_closed() {
    let state = ServerState::Draining { in_flight: 1, listener_open: true };
    let (state, action) = state.step(Event::Completed);
    assert_eq!(action, Action::Wait);
    assert_eq!(state, ServerState::Draining { in_flight: 0, listener_open: true });
    let (state, action) = state.step(Event::ListenerClosed);
    assert_eq!(action, Action::Return { outcome: Outcome::Success });
    assert_eq!(state, stopped(Outcome::Success));
}

#[test]
fn several_requests_are_drained_one_by_one() {
    let mut state = ServerState::Draining { in_flight: 3, listener_open: false };
    let (next, action) = state.step(Event::Completed);
    assert_eq!((next, action), (ServerState::Draining { in_flight: 2, listener_open: false }, Action::Wait));
    state = next;
    let (next, action) = state.step(Event::Aborted);
    assert_eq!((next, action), (ServerState::Draining { in_flight: 1, listener_open: false }, Action::Wait));
    state = next;
    let (next, action) = state.step(Event::Completed);
    assert_eq!((next, action), (stopped(Outcome::Success), Action::Return { outcome: Outcome::Success }));
}

#[test]
fn no_request_is_served_after_the_signal() {
    let open = ServerState::Draining { in_flight: 1, listener_open: true };
    assert_eq!(open.step(Event::Accepted), (open, Action::Refuse));
    let closed = ServerState::Draining { in_flight: 1, listener_open: false };
    assert_eq!(closed.step(Event::Accepted), (closed, Action::Refuse));
}

#[test]
fn firing_the_signal_twice_changes_nothing() {
    let state = ServerState::Listening { in_flight: 1 };
    let (once, _) = state.step(Event::Shutdown);
    let (twice, action) = once.step(Event::Shutdown);
    assert_eq!(twice, once);
    assert_eq!(action, Action::Wait);
    let done = stopped(Outcome::Success);
    assert_eq!(done.step(Event::Shutdown), (done, Action::Return { outcome: Outcome::Success }));
}

#[test]
fn a_failed_drain_is_reported() {
    let state = ServerState::Draining { in_flight: 2, listener_open: false };
    let (state, action) = state.step(Event::DrainFailed);
    assert_eq!(action, Action::Return { outcome: Outcome::DrainFailed });
    assert_eq!(state, stopped(Outcome::DrainFailed));
    assert_eq!(state.outcome(), Some(Outcome::DrainFailed));
}

#[test]
fn a_stopped_loop_stays_stopped() {
    let events = [
        Event::Bound,
        Event::BindFailed,
        Event::Accepted,
        Event::Completed,
        Event::Aborted,
        Event::Shutdown,
        Event::ListenerClosed,
        Event::DrainFailed,
    ];
    for outcome in [Outcome::Success, Outcome::BindFailed, Outcome::DrainFailed] {
        for event in events {
            assert_eq!(stopped(outcome).step(event), (stopped(outcome), Action::Return { outcome }));
        }
    }
}
