use sidecar_metrics::registry::Registry;
use sidecar_metrics::responder::{metric_service, ScrapeRequest};
use sidecar_metrics::server::{Action, Endpoint, Event, Outcome, ServerState};

#[test]
fn prometheus_server_shuts_down_gracefully() {
    let port = 1337;
    let mut registry = Registry::new();
    let sidecar_shutdowns = registry
        .register_counter_family(
            "sidecar_shutdowns",
            "Number of sidecar shutdowns",
            &["container", "job_name", "namespace"],
        )
        .unwrap();

    let (state, action) = ServerState::start(port);
    assert_eq!(action, Action::Bind { endpoint: Endpoint { host: [127, 0, 0, 1], port: 1337 } });
    let (state, _) = state.step(Event::Bound);

    let counter = registry.with_labels(sidecar_shutdowns, &["abc", "def", "ghi"]).unwrap();
    registry.increment(counter).unwrap();
    let counter = registry.with_labels(sidecar_shutdowns, &["abc", "def", "ghi"]).unwrap();
    registry.increment(counter).unwrap();

    let (state, action) = state.step(Event::Accepted);
    assert_eq!(action, Action::Serve);
    let request = ScrapeRequest { method: "GET".to_string(), path: "/".to_string(), headers: Vec::new() };
    let buffer = metric_service(&request, &registry).body;
    assert!(buffer.contains("sidecar_shutdowns{container=\"abc\",job_name=\"def\",namespace=\"ghi\"} 2"));
    let (state, _) = state.step(Event::Completed);

    let (state, action) = state.step(Event::Shutdown);
    assert_eq!(action, Action::StopAccepting);
    let (state, action) = state.step(Event::ListenerClosed);
    assert_eq!(action, Action::Return { outcome: Outcome::Success });
    let ret = state.outcome();
    assert!(ret == Some(Outcome::Success))
}

#[test]
fn a_slow_request_finishes_after_the_signal() {
    let mut registry = Registry::new();
    let counter = registry.register_counter("c", "help").unwrap();
    registry.increment(counter).unwrap();
    let (state, _) = ServerState::start(1338);
    let (state, _) = state.step(Event::Bound);
    let (state, action) = state.step(Event::Accepted);
    assert_eq!(action, Action::Serve);
    let request = ScrapeRequest { method: "GET".to_string(), path: "/".to_string(), headers: Vec::new() };
    let response = metric_service(&request, &registry);
    let (state, _) = state.step(Event::Shutdown);
    let (state, action) = state.step(Event::ListenerClosed);
    assert_eq!(action, Action::Wait);
    assert_eq!(state.outcome(), None);
    assert_eq!(response.status, 200);
    assert!(response.body.contains("c 1\n"));
    let (state, action) = state.step(Event::Completed);
    assert_eq!(action, Action::Return { outcome: Outcome::Success });
    assert_eq!(state.outcome(), Some(Outcome::Success));
}

#[test]
fn a_duplicate_name_shows_before_the_loop_is_started() {
    let mut registry = Registry::new();
    registry.register_counter("total_sidecar_shutdowns", "Total number of sidecars shut down").unwrap();
    let second = registry.register_counter("total_sidecar_shutdowns", "Total number of sidecars shut down");
    assert!(second.is_err());
    assert_eq!(registry.gather().families().len(), 1);
}
