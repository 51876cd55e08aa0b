use drfiley::broadcast::{Broadcaster, CONNECTED_MARKER, PING_COMMENT, SWEEP_INTERVAL};
use drfiley::configuration::{config, ConfigLayer, Configuration};
use drfiley::error::ScanError;
use drfiley::ingest::{
    agent_ready, ingest_all, reply_get_dirs, reply_get_scan_paths, to_records, ControlFeed,
    IngestCall, IngestEvent, IngestState, HEARTBEAT_INTERVAL,
};
use drfiley::jobs::ScanJob;
use drfiley::session::{
    ControlEvent, SessionAction, SessionEvent, SessionHandshake, SessionState, SessionStep,
    SyncSession,
};
use drfiley::walker::Found;

fn listening(key: Option<&str>) -> SyncSession {
    let mut s = SyncSession::new(key.map(|k| k.to_string()));
    s.step(SessionEvent::Start).unwrap();
    s.step(SessionEvent::HandshakeReply(SessionHandshake { client_key: None })).unwrap();
    s
}

fn change(paths: &[&str]) -> SessionEvent {
    SessionEvent::Control(ControlEvent::ChangeScanPaths {
        paths_to_add: paths.iter().map(|p| p.to_string()).collect(),
        paths_to_delete: Vec::new(),
    })
}

fn scan_path(step: &SessionStep) -> Option<&str> {
    match &step.action {
        SessionAction::Scan(p) => Some(p.as_str()),
        _ => None,
    }
}

#[test]
fn session_starts_disconnected_and_sends_its_key() {
    let mut s = SyncSession::new(Some("woo".to_string()));
    assert_eq!(s.state(), SessionState::Disconnected);
    let step = s.step(SessionEvent::Start).unwrap();
    assert_eq!(step.report, None);
    match step.action {
        SessionAction::SendHandshake(h) => assert_eq!(h.client_key, Some("woo".to_string())),
        other => panic!("unexpected action {:?}", other),
    }
    assert_eq!(s.state(), SessionState::Handshaking);
}

#[test]
fn session_handshake_reply_opens_the_control_stream() {
    let mut s = SyncSession::new(None);
    s.step(SessionEvent::Start).unwrap();
    let step =
        s.step(SessionEvent::HandshakeReply(SessionHandshake { client_key: None })).unwrap();
    assert!(matches!(step.action, SessionAction::OpenControlStream));
    assert_eq!(s.state(), SessionState::Listening);
}

#[test]
fn session_takes_the_key_the_server_issues() {
    let mut s = SyncSession::new(Some("old".to_string()));
    s.step(SessionEvent::Start).unwrap();
    s.step(SessionEvent::HandshakeReply(SessionHandshake {
        client_key: Some("new".to_string()),
    }))
    .unwrap();
    s.step(SessionEvent::StreamEnded).unwrap();
    match s.step(SessionEvent::Start).unwrap().action {
        SessionAction::SendHandshake(h) => assert_eq!(h.client_key, Some("new".to_string())),
        other => panic!("unexpected action {:?}", other),
    }
}

#[test]
fn session_keeps_its_key_when_none_is_issued() {
    let mut s = listening(Some("mine"));
    s.step(SessionEvent::StreamEnded).unwrap();
    match s.step(SessionEvent::Start).unwrap().action {
        SessionAction::SendHandshake(h) => assert_eq!(h.client_key, Some("mine".to_string())),
        other => panic!("unexpected action {:?}", other),
    }
}

#[test]
fn session_heartbeat_changes_nothing() {
    let mut s = listening(None);
    let step = s.step(SessionEvent::Control(ControlEvent::Heartbeat)).unwrap();
    assert_eq!(step.report, None);
    assert!(matches!(step.action, SessionAction::AwaitControl));
    assert_eq!(s.state(), SessionState::Listening);
}

#[test]
fn session_unhandled_controls_are_not_implemented() {
    let mut s = listening(None);
    let step = s.step(SessionEvent::Control(ControlEvent::GetDirectories)).unwrap();
    assert_eq!(step.report, Some(ScanError::NotImplemented));
    assert!(matches!(step.action, SessionAction::AwaitControl));
    let step = s.step(SessionEvent::Control(ControlEvent::GetScanPaths)).unwrap();
    assert_eq!(step.report, Some(ScanError::NotImplemented));
    assert_eq!(s.state(), SessionState::Listening);
}

#[test]
fn session_stream_end_is_fatal() {
    let mut s = listening(None);
    let step = s.step(SessionEvent::StreamEnded).unwrap();
    assert_eq!(step.report, Some(ScanError::TransportFailure));
    assert!(matches!(step.action, SessionAction::Stop));
    assert_eq!(s.state(), SessionState::Disconnected);
}

#[test]
fn session_handshake_failure_disconnects() {
    let mut s = SyncSession::new(None);
    s.step(SessionEvent::Start).unwrap();
    let step = s.step(SessionEvent::StreamEnded).unwrap();
    assert_eq!(step.report, Some(ScanError::TransportFailure));
    assert_eq!(s.state(), SessionState::Disconnected);
}

#[test]
fn session_scans_persists_then_uploads_each_path() {
    let mut s = listening(None);
    let step = s.step(change(&["X", "Y"])).unwrap();
    assert_eq!(scan_path(&step), Some("X"));
    assert_eq!(s.state(), SessionState::ScanTriggered);
    assert_eq!(s.waiting(), 1);
    assert!(matches!(s.step(SessionEvent::Scanned).unwrap().action, SessionAction::Persist));
    assert!(matches!(s.step(SessionEvent::Persisted).unwrap().action, SessionAction::Upload));
    let step = s.step(SessionEvent::Uploaded).unwrap();
    assert_eq!(step.report, None);
    assert_eq!(scan_path(&step), Some("Y"));
    s.step(SessionEvent::Scanned).unwrap();
    s.step(SessionEvent::Persisted).unwrap();
    let step = s.step(SessionEvent::Uploaded).unwrap();
    assert!(matches!(step.action, SessionAction::AwaitControl));
    assert_eq!(s.state(), SessionState::Listening);
}

#[test]
fn session_change_without_paths_keeps_listening() {
    let mut s = listening(None);
    let step = s.step(change(&[])).unwrap();
    assert!(matches!(step.action, SessionAction::AwaitControl));
    assert_eq!(s.state(), SessionState::Listening);
}

#[test]
fn session_paths_to_delete_have_no_effect() {
    let mut s = listening(None);
    let step = s
        .step(SessionEvent::Control(ControlEvent::ChangeScanPaths {
            paths_to_add: Vec::new(),
            paths_to_delete: vec!["gone".to_string()],
        }))
        .unwrap();
    assert!(matches!(step.action, SessionAction::AwaitControl));
    assert_eq!(s.waiting(), 0);
}

#[test]
fn session_upload_failure_aborts_only_that_path() {
    let mut s = listening(None);
    s.step(change(&["X", "Y"])).unwrap();
    s.step(SessionEvent::Scanned).unwrap();
    s.step(SessionEvent::Persisted).unwrap();
    let step = s.step(SessionEvent::UploadFailed).unwrap();
    assert_eq!(step.report, Some(ScanError::TransportFailure));
    assert_eq!(scan_path(&step), Some("Y"));
    assert_eq!(s.state(), SessionState::ScanTriggered);
}

#[test]
fn session_local_store_failure_ends_that_scan_only() {
    let mut s = listening(None);
    s.step(change(&["X"])).unwrap();
    s.step(SessionEvent::Scanned).unwrap();
    let step = s.step(SessionEvent::PersistFailed).unwrap();
    assert_eq!(step.report, Some(ScanError::PersistenceFailure));
    assert!(matches!(step.action, SessionAction::AwaitControl));
    assert_eq!(s.state(), SessionState::Listening);
}

#[test]
fn session_scan_failure_is_an_io_failure() {
    let mut s = listening(None);
    s.step(change(&["X"])).unwrap();
    let step = s.step(SessionEvent::ScanFailed).unwrap();
    assert_eq!(step.report, Some(ScanError::IoFailure));
    assert_eq!(s.state(), SessionState::Listening);
}

#[test]
fn session_refuses_events_out_of_place() {
    let mut s = SyncSession::new(None);
    assert!(s.step(SessionEvent::Control(ControlEvent::Heartbeat)).is_none());
    assert!(s.step(SessionEvent::Uploaded).is_none());
    assert_eq!(s.state(), SessionState::Disconnected);
    let mut s = listening(None);
    assert!(s.step(SessionEvent::Start).is_none());
    assert!(s.step(SessionEvent::Scanned).is_none());
    s.step(change(&["X"])).unwrap();
    assert!(s.step(SessionEvent::Persisted).is_none());
    assert!(s.step(SessionEvent::Uploaded).is_none());
    assert!(s.step(SessionEvent::Control(ControlEvent::Heartbeat)).is_none());
    assert_eq!(s.state(), SessionState::ScanTriggered);
    assert!(matches!(s.step(SessionEvent::Scanned).unwrap().action, SessionAction::Persist));
}

#[test]
fn one_path_with_one_file_sends_one_record_and_commits_one_row() {
    let mut s = listening(None);
    let step = s.step(change(&["X"])).unwrap();
    assert_eq!(scan_path(&step), Some("X"));
    let found = vec![Found::File { path: "X/only".to_string(), size_bytes: 9 }];
    let files = ScanJob::scan(&found).unwrap();
    assert!(matches!(s.step(SessionEvent::Scanned).unwrap().action, SessionAction::Persist));
    assert!(matches!(s.step(SessionEvent::Persisted).unwrap().action, SessionAction::Upload));
    let records = to_records(&files);
    assert_eq!(records.len(), 1);
    assert_eq!(records[0].path, "X/only");
    assert_eq!(records[0].size_bytes, 9);
    let outcomes: Vec<bool> = records.iter().map(|_| true).collect();
    let (report, result) = ingest_all(&outcomes);
    assert_eq!(result, Ok(()));
    assert_eq!(report.committed, 1);
    assert_eq!(report.attempted, 1);
    assert!(matches!(s.step(SessionEvent::Uploaded).unwrap().action, SessionAction::AwaitControl));
}

#[test]
fn ingest_third_of_five_fails() {
    let (report, result) = ingest_all(&vec![true, true, false, true, true]);
    assert_eq!(result, Err(ScanError::PersistenceFailure));
    assert_eq!(report.committed, 2);
    assert_eq!(report.attempted, 3);
    assert!(!report.complete);
}

#[test]
fn ingest_all_succeed() {
    let (report, result) = ingest_all(&vec![true; 5]);
    assert_eq!(result, Ok(()));
    assert_eq!(report.committed, 5);
    assert_eq!(report.attempted, 5);
    assert!(report.complete);
}

#[test]
fn ingest_of_empty_stream_completes() {
    let (report, result) = ingest_all(&Vec::new());
    assert_eq!(result, Ok(()));
    assert_eq!(report.committed, 0);
    assert!(report.complete);
}

#[test]
fn ingest_first_record_fails() {
    let (report, result) = ingest_all(&vec![false, true]);
    assert_eq!(result, Err(ScanError::PersistenceFailure));
    assert_eq!(report.committed, 0);
    assert_eq!(report.attempted, 1);
}

#[test]
fn ingest_call_keeps_what_was_committed() {
    let mut call = IngestCall::agent_scanned_items();
    assert!(call.accepts());
    assert_eq!(call.step(IngestEvent::Committed), None);
    assert_eq!(call.step(IngestEvent::Committed), None);
    assert_eq!(call.step(IngestEvent::CommitFailed), Some(Err(ScanError::PersistenceFailure)));
    assert_eq!(call.state(), IngestState::Failed);
    assert_eq!(call.committed(), 2);
    assert!(!call.accepts());
    assert_eq!(call.step(IngestEvent::Committed), None);
    assert_eq!(call.committed(), 2);
    assert_eq!(call.step(IngestEvent::End), None);
    assert_eq!(call.state(), IngestState::Failed);
}

#[test]
fn ingest_call_ends_with_the_stream() {
    let mut call = IngestCall::agent_scanned_items();
    call.step(IngestEvent::Committed);
    assert_eq!(call.step(IngestEvent::End), Some(Ok(())));
    assert_eq!(call.state(), IngestState::Completed);
    assert_eq!(call.committed(), 1);
}

#[test]
fn ingest_call_reports_a_failed_stream() {
    let mut call = IngestCall::agent_scanned_items();
    assert_eq!(call.step(IngestEvent::StreamFailed), Some(Err(ScanError::TransportFailure)));
    assert_eq!(call.state(), IngestState::Failed);
}

#[test]
fn handshake_issues_no_key() {
    let reply = agent_ready(&SessionHandshake { client_key: Some("woo".to_string()) });
    assert_eq!(reply.client_key, None);
}

#[test]
fn unimplemented_handlers_fail() {
    assert_eq!(reply_get_dirs(), Err(ScanError::NotImplemented));
    assert_eq!(reply_get_scan_paths(), Err(ScanError::NotImplemented));
}

#[test]
fn control_feed_bootstraps_then_beats() {
    let mut feed = ControlFeed::agent_listen();
    let first = feed.next_event().unwrap();
    assert_eq!(first.delay, 0);
    match first.event {
        ControlEvent::ChangeScanPaths { paths_to_add, paths_to_delete } => {
            assert_eq!(paths_to_add, vec![".".to_string()]);
            assert!(paths_to_delete.is_empty());
        }
        other => panic!("unexpected event {:?}", other),
    }
    for _ in 0..3 {
        let beat = feed.next_event().unwrap();
        assert_eq!(beat.delay, 10);
        assert_eq!(beat.delay, HEARTBEAT_INTERVAL);
        assert!(matches!(beat.event, ControlEvent::Heartbeat));
    }
}

#[test]
fn control_feed_ends_when_a_send_fails() {
    let mut feed = ControlFeed::agent_listen();
    feed.next_event().unwrap();
    assert!(feed.open());
    feed.send_failed();
    assert!(!feed.open());
    assert!(feed.next_event().is_none());
}

#[test]
fn broadcaster_sweep_drops_the_client_that_failed() {
    let mut b = Broadcaster::create();
    let first = b.new_client().unwrap();
    let second = b.new_client().unwrap();
    assert_ne!(first, second);
    assert_eq!(b.broadcast(), vec![first, second]);
    b.remove_stale_clients(&vec![second]);
    assert_eq!(b.len(), 1);
    assert_eq!(b.broadcast(), vec![first]);
}

#[test]
fn broadcaster_broadcast_removes_nobody() {
    let mut b = Broadcaster::create();
    let first = b.new_client().unwrap();
    assert_eq!(b.broadcast(), vec![first]);
    assert_eq!(b.broadcast(), vec![first]);
    assert_eq!(b.len(), 1);
}

#[test]
fn broadcaster_sweep_keeps_clients_registered_meanwhile() {
    let mut b = Broadcaster::create();
    let first = b.new_client().unwrap();
    let second = b.new_client().unwrap();
    let pinged = b.broadcast();
    let third = b.new_client().unwrap();
    assert_eq!(pinged, vec![first, second]);
    b.remove_stale_clients(&vec![first]);
    assert_eq!(b.broadcast(), vec![second, third]);
}

#[test]
fn broadcaster_sweep_without_failures_keeps_everyone() {
    let mut b = Broadcaster::create();
    let first = b.new_client().unwrap();
    let second = b.new_client().unwrap();
    b.remove_stale_clients(&Vec::new());
    assert_eq!(b.broadcast(), vec![first, second]);
    b.remove_stale_clients(&vec![99]);
    assert_eq!(b.broadcast(), vec![first, second]);
}

#[test]
fn broadcaster_never_reuses_an_identifier() {
    let mut b = Broadcaster::create();
    let first = b.new_client().unwrap();
    b.remove_stale_clients(&vec![first]);
    assert_eq!(b.len(), 0);
    let second = b.new_client().unwrap();
    assert_ne!(first, second);
}

#[test]
fn sweep_interval_is_ten() {
    assert_eq!(SWEEP_INTERVAL, 10);
}

#[test]
fn observer_markers() {
    assert_eq!(CONNECTED_MARKER, "connected");
    assert_eq!(PING_COMMENT, "ping");
}

#[test]
fn configuration_defaults() {
    let c = Configuration::defaults();
    assert_eq!(c.path, ".");
    assert_eq!(c.max_threads, 1);
    assert!(c.debug);
    let c = config(Vec::new());
    assert_eq!(c.path, ".");
    assert_eq!(c.max_threads, 1);
    assert!(c.debug);
}

#[test]
fn configuration_later_layers_win() {
    let file = ConfigLayer { path: Some("/srv".to_string()), max_threads: Some(4), debug: None };
    let env = ConfigLayer { path: None, max_threads: Some(8), debug: Some(false) };
    let c = config(vec![file, env]);
    assert_eq!(c.path, "/srv");
    assert_eq!(c.max_threads, 8);
    assert!(!c.debug);
}

#[test]
fn configuration_overlay_takes_what_the_layer_has() {
    let c = Configuration::defaults().overlay(ConfigLayer {
        path: None,
        max_threads: Some(3),
        debug: None,
    });
    assert_eq!(c.path, ".");
    assert_eq!(c.max_threads, 3);
    assert!(c.debug);
}
