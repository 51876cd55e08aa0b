//! The agent's side of a synchronisation session, as a state machine.
//!
//! The session decides; its driver does the network and disk work. Each
//! [`SessionEvent`] tells the session what happened, and the
//! [`SessionStep`] it answers with names the failure to log, if any, and
//! what the driver is to do next.

use crate::error::ScanError;
use crate::path::texts;
use vstd::prelude::*;

verus! {

/// What the server asks of an agent over the control stream.
#[derive(Debug)]
pub enum ControlEvent {
    /// A liveness signal.
    Heartbeat,
    /// A request for the agent's directories. Not handled yet.
    GetDirectories,
    /// A request for the agent's scan paths. Not handled yet.
    GetScanPaths,
    /// A change of the paths the agent scans.
    ChangeScanPaths { paths_to_add: Vec<String>, paths_to_delete: Vec<String> },
}

/// The message exchanged once at the start of a session.
#[derive(Debug)]
pub struct SessionHandshake {
    pub client_key: Option<String>,
}

/// Where a session stands.
#[derive(Clone, Copy, Debug, PartialEq, Eq, Structural)]
pub enum SessionState {
    Disconnected,
    Handshaking,
    Listening,
    ScanTriggered,
}

/// The part of a triggered scan that is under way.
#[derive(Clone, Copy, Debug, PartialEq, Eq, Structural)]
pub enum ScanPhase {
    /// The path is being scanned.
    Scanning,
    /// The scanned items are being written to the local store.
    Persisting,
    /// The scanned items are being streamed to the server.
    Uploading,
}

/// What the driver reports to the session.
#[derive(Debug)]
pub enum SessionEvent {
    /// The agent starts up, or a caller retries after a session ended.
    Start,
    /// The server answered the handshake.
    HandshakeReply(SessionHandshake),
    /// The control stream gave an event.
    Control(ControlEvent),
    /// The connection or the control stream ended or failed.
    StreamEnded,
    /// The scan of the current path succeeded.
    Scanned,
    /// The scan of the current path failed.
    ScanFailed,
    /// The scanned items were written to the local store.
    Persisted,
    /// Writing the scanned items to the local store failed.
    PersistFailed,
    /// The scanned items were streamed to the server.
    Uploaded,
    /// Streaming the scanned items to the server failed.
    UploadFailed,
}

/// What the driver is to do next.
#[derive(Debug)]
pub enum SessionAction {
    /// Connect and send the handshake with this key.
    SendHandshake(SessionHandshake),
    /// Open the control stream.
    OpenControlStream,
    /// Wait for the next control event.
    AwaitControl,
    /// Scan this path.
    Scan(String),
    /// Write the items of the scan to the local store.
    Persist,
    /// Stream the items of the scan to the server.
    Upload,
    /// The session is over.
    Stop,
}

/// The session's answer to one event.
#[derive(Debug)]
pub struct SessionStep {
    /// The failure to log, if the event was one.
    pub report: Option<ScanError>,
    /// What to do next.
    pub action: SessionAction,
}

/// What a [`SessionAction`] stands for.
pub ghost enum ActionView {
    SendHandshake(Option<Seq<char>>),
    OpenControlStream,
    AwaitControl,
    Scan(Seq<char>),
    Persist,
    Upload,
    Stop,
}

/// What a session stands for: its state, the phase of the scan under way,
/// the client key it holds, and the paths that still wait to be scanned.
pub ghost struct SessionView {
    pub state: SessionState,
    pub phase: ScanPhase,
    pub key: Option<Seq<char>>,
    pub waiting: Seq<Seq<char>>,
}

/// The text of an optional string.
pub open spec fn key_text(key: Option<String>) -> Option<Seq<char>> {
    match key {
        Some(k) => Some(k@),
        None => None,
    }
}

impl View for SessionAction {
    type V = ActionView;

    open spec fn view(&self) -> ActionView {
        match self {
            SessionAction::SendHandshake(h) => ActionView::SendHandshake(key_text(h.client_key)),
            SessionAction::OpenControlStream => ActionView::OpenControlStream,
            SessionAction::AwaitControl => ActionView::AwaitControl,
            SessionAction::Scan(path) => ActionView::Scan(path@),
            SessionAction::Persist => ActionView::Persist,
            SessionAction::Upload => ActionView::Upload,
            SessionAction::Stop => ActionView::Stop,
        }
    }
}

/// The session turns to the next waiting path, or goes back to listening
/// when none waits, and logs `report` on the way.
pub open spec fn turn_to_next(pre: SessionView, report: Option<ScanError>) -> (
    SessionView,
    Option<ScanError>,
    ActionView,
) {
    if pre.waiting.len() > 0 {
        (
            SessionView {
                state: SessionState::ScanTriggered,
                phase: ScanPhase::Scanning,
                key: pre.key,
                waiting: pre.waiting.drop_first(),
            },
            report,
            ActionView::Scan(pre.waiting[0]),
        )
    } else {
        (
            SessionView {
                state: SessionState::Listening,
                phase: pre.phase,
                key: pre.key,
                waiting: pre.waiting,
            },
            report,
            ActionView::AwaitControl,
        )
    }
}

/// The session's answer to `event` from `pre`: the session afterwards, the
/// failure to log, and what to do next. `None` where the event cannot come
/// in that state.
///
/// A heartbeat changes nothing. A change of scan paths queues the paths to
/// add and starts on the first; the paths to delete have no effect. A
/// request without a handler is logged as `NotImplemented` and the session
/// keeps listening. A failed scan, local write or upload ends the work on
/// that one path, and the session goes on with the next. The end of the
/// stream ends the session.
pub open spec fn session_after(pre: SessionView, event: SessionEvent) -> Option<
    (SessionView, Option<ScanError>, ActionView),
> {
    match (pre.state, event) {
        (SessionState::Disconnected, SessionEvent::Start) => Some(
            (
                SessionView { state: SessionState::Handshaking, ..pre },
                None,
                ActionView::SendHandshake(pre.key),
            ),
        ),
        (SessionState::Handshaking, SessionEvent::HandshakeReply(reply)) => Some(
            (
                SessionView {
                    state: SessionState::Listening,
                    key: if reply.client_key is Some {
                        key_text(reply.client_key)
                    } else {
                        pre.key
                    },
                    ..pre
                },
                None,
                ActionView::OpenControlStream,
            ),
        ),
        (SessionState::Handshaking, SessionEvent::StreamEnded) | (
            SessionState::Listening,
            SessionEvent::StreamEnded,
        ) => Some(
            (
                SessionView { state: SessionState::Disconnected, ..pre },
                Some(ScanError::TransportFailure),
                ActionView::Stop,
            ),
        ),
        (SessionState::Listening, SessionEvent::Control(control)) => match control {
            ControlEvent::Heartbeat => Some((pre, None, ActionView::AwaitControl)),
            ControlEvent::GetDirectories | ControlEvent::GetScanPaths => Some(
                (pre, Some(ScanError::NotImplemented), ActionView::AwaitControl),
            ),
            ControlEvent::ChangeScanPaths { paths_to_add, .. } => Some(
                turn_to_next(SessionView { waiting: texts(paths_to_add@), ..pre }, None),
            ),
        },
        (SessionState::ScanTriggered, SessionEvent::Scanned) => if pre.phase
            == ScanPhase::Scanning {
            Some((SessionView { phase: ScanPhase::Persisting, ..pre }, None, ActionView::Persist))
        } else {
            None
        },
        (SessionState::ScanTriggered, SessionEvent::ScanFailed) => if pre.phase
            == ScanPhase::Scanning {
            Some(turn_to_next(pre, Some(ScanError::IoFailure)))
        } else {
            None
        },
        (SessionState::ScanTriggered, SessionEvent::Persisted) => if pre.phase
            == ScanPhase::Persisting {
            Some((SessionView { phase: ScanPhase::Uploading, ..pre }, None, ActionView::Upload))
        } else {
            None
        },
        (SessionState::ScanTriggered, SessionEvent::PersistFailed) => if pre.phase
            == ScanPhase::Persisting {
            Some(turn_to_next(pre, Some(ScanError::PersistenceFailure)))
        } else {
            None
        },
        (SessionState::ScanTriggered, SessionEvent::Uploaded) => if pre.phase
            == ScanPhase::Uploading {
            Some(turn_to_next(pre, None))
        } else {
            None
        },
        (SessionState::ScanTriggered, SessionEvent::UploadFailed) => if pre.phase
            == ScanPhase::Uploading {
            Some(turn_to_next(pre, Some(ScanError::TransportFailure)))
        } else {
            None
        },
        _ => None,
    }
}

/// Whether a session may go from state `from` to state `to` in one step:
/// along `Disconnected`, `Handshaking`, `Listening`, then between
/// `Listening` and `ScanTriggered` any number of times, and from
/// `Handshaking` or `Listening` back to `Disconnected`; or it stays.
pub open spec fn may_follow(from: SessionState, to: SessionState) -> bool {
    from == to || match (from, to) {
        (SessionState::Disconnected, SessionState::Handshaking) => true,
        (SessionState::Handshaking, SessionState::Listening) => true,
        (SessionState::Handshaking, SessionState::Disconnected) => true,
        (SessionState::Listening, SessionState::ScanTriggered) => true,
        (SessionState::Listening, SessionState::Disconnected) => true,
        (SessionState::ScanTriggered, SessionState::Listening) => true,
        _ => false,
    }
}

/// Every step of a session follows the state graph, keeps the client key
/// unless the server issues one, and ends the session only when the stream
/// ends: no control event and no failure of a scan, of the local store or
/// of an upload disconnects it.
pub proof fn lemma_session_moves(pre: SessionView, event: SessionEvent)
    requires
        session_after(pre, event) is Some,
    ensures
        may_follow(pre.state, session_after(pre, event)->Some_0.0.state),
        !(event is HandshakeReply) ==> session_after(pre, event)->Some_0.0.key == pre.key,
        pre.state != SessionState::Disconnected && session_after(pre, event)->Some_0.0.state
            == SessionState::Disconnected ==> event is StreamEnded,
        session_after(pre, event)->Some_0.2 is Stop <==> event is StreamEnded,
{
}

/// The agent's session with the server.
pub struct SyncSession {
    state: SessionState,
    phase: ScanPhase,
    client_key: Option<String>,
    paths: Vec<String>,
    next: usize,
}

impl View for SyncSession {
    type V = SessionView;

    closed spec fn view(&self) -> SessionView {
        SessionView {
            state: self.state,
            phase: self.phase,
            key: key_text(self.client_key),
            waiting: texts(self.paths@).skip(self.next as int),
        }
    }
}

impl SyncSession {
    /// The session holds its paths consistently.
    pub closed spec fn wf(&self) -> bool {
        self.next <= self.paths@.len()
    }

    /// A disconnected session that holds `client_key`.
    pub fn new(client_key: Option<String>) -> (session: SyncSession)
        ensures
            session.wf(),
            session@ == (SessionView {
                state: SessionState::Disconnected,
                phase: ScanPhase::Scanning,
                key: key_text(client_key),
                waiting: Seq::empty(),
            }),
    {
        let session = SyncSession {
            state: SessionState::Disconnected,
            phase: ScanPhase::Scanning,
            client_key,
            paths: Vec::new(),
            next: 0,
        };
        assert(texts(session.paths@).skip(0) == Seq::<Seq<char>>::empty());
        session
    }

    /// Where the session stands.
    pub fn state(&self) -> (state: SessionState)
        ensures
            state == self@.state,
    {
        self.state
    }

    /// How many paths wait to be scanned.
    pub fn waiting(&self) -> (n: usize)
        requires
            self.wf(),
        ensures
            n == self@.waiting.len(),
    {
        self.paths.len() - self.next
    }

    /// Turns to the next waiting path, or back to listening.
    fn turn_to_next(&mut self, report: Option<ScanError>) -> (step: SessionStep)
        requires
            old(self).wf(),
        ensures
            final(self).wf(),
            (final(self)@, step.report, step.action@) == turn_to_next(old(self)@, report),
    {
        if self.next < self.paths.len() {
            let path = self.paths[self.next].clone();
            assert(texts(self.paths@).skip(self.next as int)[0] == path@);
            assert(texts(self.paths@).skip(self.next as int).drop_first() == texts(
                self.paths@,
            ).skip(self.next + 1));
            self.next = self.next + 1;
            self.state = SessionState::ScanTriggered;
            self.phase = ScanPhase::Scanning;
            SessionStep { report, action: SessionAction::Scan(path) }
        } else {
            self.state = SessionState::Listening;
            SessionStep { report, action: SessionAction::AwaitControl }
        }
    }

    /// Takes one event and says what to log and what to do next. An event
    /// that cannot come in the session's state changes nothing and is
    /// answered by `None`.
    pub fn step(&mut self, event: SessionEvent) -> (r: Option<SessionStep>)
        requires
            old(self).wf(),
        ensures
            final(self).wf(),
            match session_after(old(self)@, event) {
                Some((post, report, action)) => {
                    &&& r is Some
                    &&& final(self)@ == post
                    &&& r->Some_0.report == report
                    &&& r->Some_0.action@ == action
                },
                None => r is None && final(self)@ == old(self)@,
            },
    {
        match (self.state, event) {
            (SessionState::Disconnected, SessionEvent::Start) => {
                self.state = SessionState::Handshaking;
                let client_key = match &self.client_key {
                    Some(k) => Some(k.clone()),
                    None => None,
                };
                Some(
                    SessionStep {
                        report: None,
                        action: SessionAction::SendHandshake(SessionHandshake { client_key }),
                    },
                )
            },
            (SessionState::Handshaking, SessionEvent::HandshakeReply(reply)) => {
                self.state = SessionState::Listening;
                match reply.client_key {
                    Some(k) => {
                        self.client_key = Some(k);
                    },
                    None => {},
                }
                Some(SessionStep { report: None, action: SessionAction::OpenControlStream })
            },
            (SessionState::Handshaking, SessionEvent::StreamEnded) | (
                SessionState::Listening,
                SessionEvent::StreamEnded,
            ) => {
                self.state = SessionState::Disconnected;
                Some(
                    SessionStep {
                        report: Some(ScanError::TransportFailure),
                        action: SessionAction::Stop,
                    },
                )
            },
            (SessionState::Listening, SessionEvent::Control(control)) => match control {
                ControlEvent::Heartbeat => Some(
                    SessionStep { report: None, action: SessionAction::AwaitControl },
                ),
                ControlEvent::GetDirectories | ControlEvent::GetScanPaths => Some(
                    SessionStep {
                        report: Some(ScanError::NotImplemented),
                        action: SessionAction::AwaitControl,
                    },
                ),
                ControlEvent::ChangeScanPaths { paths_to_add, paths_to_delete: _ } => {
                    assert(texts(paths_to_add@).skip(0) == texts(paths_to_add@));
                    self.paths = paths_to_add;
                    self.next = 0;
                    Some(self.turn_to_next(None))
                },
            },
            (SessionState::ScanTriggered, event) => {
                let outcome = match (self.phase, event) {
                    (ScanPhase::Scanning, SessionEvent::Scanned) => Some(
                        (Some(ScanPhase::Persisting), None),
                    ),
                    (ScanPhase::Scanning, SessionEvent::ScanFailed) => Some(
                        (None, Some(ScanError::IoFailure)),
                    ),
                    (ScanPhase::Persisting, SessionEvent::Persisted) => Some(
                        (Some(ScanPhase::Uploading), None),
                    ),
                    (ScanPhase::Persisting, SessionEvent::PersistFailed) => Some(
                        (None, Some(ScanError::PersistenceFailure)),
                    ),
                    (ScanPhase::Uploading, SessionEvent::Uploaded) => Some((None, None)),
                    (ScanPhase::Uploading, SessionEvent::UploadFailed) => Some(
                        (None, Some(ScanError::TransportFailure)),
                    ),
                    _ => None,
                };
                match outcome {
                    Some((Some(phase), _)) => {
                        self.phase = phase;
                        let action = match phase {
                            ScanPhase::Persisting => SessionAction::Persist,
                            _ => SessionAction::Upload,
                        };
                        Some(SessionStep { report: None, action })
                    },
                    Some((None, report)) => Some(self.turn_to_next(report)),
                    None => None,
                }
            },
            _ => None,
        }
    }
}

} // verus!
