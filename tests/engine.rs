use autolocalhost::connection::{next_connect_action, ConnectAction};
use autolocalhost::container_info::ContainerInfo;
use autolocalhost::engine::{ActiveSet, ContainerEvent, DebounceState, Engine, EventOutcome};
use autolocalhost::port_mapping::PortMapping;

fn info(id: &str, domain: &str) -> ContainerInfo {
    ContainerInfo {
        id: id.to_string(),
        name: format!("{id}-name"),
        is_running: true,
        domain: domain.to_string(),
        ports: vec![PortMapping::new(80, 8080)],
        ssl_ports: vec![],
    }
}

fn ids(v: &[ContainerInfo]) -> Vec<String> {
    v.iter().map(|c| c.id.clone()).collect()
}

#[test]
fn active_set_inserts_once_and_removes() {
    let mut s = ActiveSet::new();
    assert!(s.insert(info("a", "a.test")));
    assert!(!s.insert(info("a", "other.test")));
    assert!(s.insert(info("b", "b.test")));
    assert_eq!(s.len(), 2);
    assert!(s.contains("a"));
    assert_eq!(s.snapshot()[0].domain, "a.test");
    assert!(s.remove("a"));
    assert!(!s.remove("a"));
    assert!(!s.contains("a"));
    assert_eq!(ids(&s.snapshot()), vec!["b".to_string()]);
}

#[test]
fn stop_of_untracked_id_changes_nothing() {
    let mut e = Engine::new(5000);
    assert!(e.record_started(info("a", "a.test"), 0));
    let _ = e.tick(10_000);
    for ev in [ContainerEvent::Stop("zzz".to_string()), ContainerEvent::Die("zzz".to_string()), ContainerEvent::Destroy("zzz".to_string())] {
        assert!(matches!(e.handle_event(ev, 20_000), EventOutcome::Ignored));
    }
    assert_eq!(e.active.len(), 1);
    assert_eq!(ids(&e.active.snapshot()), vec!["a".to_string()]);
    assert!(!e.debounce.pending);
}

#[test]
fn stop_of_tracked_id_removes_and_owes_a_pass() {
    let mut e = Engine::new(5000);
    e.record_started(info("a", "a.test"), 0);
    let _ = e.tick(6000);
    assert!(matches!(e.handle_event(ContainerEvent::Stop("a".to_string()), 7000), EventOutcome::Changed));
    assert_eq!(e.active.len(), 0);
    assert_eq!(e.debounce, DebounceState { last_request: Some(7000), pending: true });
}

#[test]
fn start_asks_for_inspection_only_when_new() {
    let mut e = Engine::new(5000);
    match e.handle_event(ContainerEvent::Start("a".to_string()), 0) {
        EventOutcome::Inspect(id) => assert_eq!(id, "a"),
        other => panic!("unexpected {other:?}"),
    }
    e.record_started(info("a", "a.test"), 0);
    assert!(matches!(e.handle_event(ContainerEvent::Start("a".to_string()), 1), EventOutcome::Ignored));
    assert!(matches!(e.handle_event(ContainerEvent::Other, 1), EventOutcome::Ignored));
}

#[test]
fn burst_of_starts_gives_one_pass_with_all() {
    let mut e = Engine::new(5000);
    let mut passes = Vec::new();
    let mut now = 0u64;
    for (k, id) in ["a", "b", "c", "d"].iter().enumerate() {
        now = 1000 + 900 * k as u64;
        if let Some(p) = e.tick(now) {
            passes.push(p);
        }
        e.record_started(info(id, &format!("{id}.test")), now);
    }
    for _ in 0..20 {
        now += 1000;
        if let Some(p) = e.tick(now) {
            passes.push(p);
        }
    }
    assert_eq!(passes.len(), 1);
    assert_eq!(ids(&passes[0]), vec!["a", "b", "c", "d"]);
}

#[test]
fn debounce_waits_for_quiet() {
    let mut d = DebounceState::new();
    assert!(!d.poll(100, 5));
    d.request(10);
    assert!(!d.poll(14, 5));
    assert!(d.poll(15, 5));
    assert_eq!(d, DebounceState { last_request: None, pending: false });
    assert!(!d.poll(100, 5));
}

#[test]
fn feed_actions_map_to_events() {
    assert!(matches!(ContainerEvent::from_action("start", "x".to_string()), ContainerEvent::Start(_)));
    assert!(matches!(ContainerEvent::from_action("stop", "x".to_string()), ContainerEvent::Stop(_)));
    assert!(matches!(ContainerEvent::from_action("die", "x".to_string()), ContainerEvent::Die(_)));
    assert!(matches!(ContainerEvent::from_action("destroy", "x".to_string()), ContainerEvent::Destroy(_)));
    assert!(matches!(ContainerEvent::from_action("pause", "x".to_string()), ContainerEvent::Other));
}

#[test]
fn load_tracks_the_startup_scan_without_owing_a_pass() {
    let mut e = Engine::new(5000);
    e.load(&vec![info("a", "a.test"), info("b", "b.test"), info("a", "x.test")]);
    assert_eq!(e.active.len(), 2);
    assert!(!e.debounce.pending);
    assert!(e.tick(1_000_000).is_none());
}

#[test]
fn failed_connection_is_retried_then_given_up() {
    assert_eq!(next_connect_action(1, true), ConnectAction::Done);
    assert_eq!(next_connect_action(1, false), ConnectAction::Retry { attempt: 2, after_secs: 15 });
    assert_eq!(next_connect_action(19, false), ConnectAction::Retry { attempt: 20, after_secs: 15 });
    assert_eq!(next_connect_action(20, false), ConnectAction::GiveUp);
    assert_eq!(next_connect_action(u64::MAX, false), ConnectAction::GiveUp);
    assert_eq!(next_connect_action(20, true), ConnectAction::Done);
}
