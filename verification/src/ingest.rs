//! The server's side: handshakes, the control feed of an agent, and the
//! ingestion of streamed scan results.

use crate::error::ScanError;
use crate::jobs::ScanItem;
use crate::session::{ControlEvent, SessionHandshake};
use vstd::prelude::*;

verus! {

/// Time units between two heartbeats on a control stream.
pub const HEARTBEAT_INTERVAL: u64 = 10;

/// One record of an ingest stream.
#[derive(Debug)]
pub struct IngestRecord {
    pub path: String,
    pub size_bytes: u64,
}

/// The records that carry `items` to the server, one for each, in order.
pub open spec fn records_of(items: Seq<ScanItem>) -> Seq<IngestRecord> {
    Seq::new(
        items.len(),
        |i: int| IngestRecord { path: items[i].path, size_bytes: items[i].size_bytes },
    )
}

/// Turns the items of a scan into the records to stream to the server.
pub fn to_records(items: &Vec<ScanItem>) -> (records: Vec<IngestRecord>)
    ensures
        records@ == records_of(items@),
{
    let mut records: Vec<IngestRecord> = Vec::new();
    let mut i: usize = 0;
    while i < items.len()
        invariant
            i <= items@.len(),
            records@ == records_of(items@.take(i as int)),
        decreases items@.len() - i,
    {
        records.push(IngestRecord { path: items[i].path.clone(), size_bytes: items[i].size_bytes });
        assert(records@ == records_of(items@.take(i + 1)));
        i += 1;
    }
    assert(items@.take(i as int) == items@);
    records
}

/// Answers a handshake. No key is issued.
pub fn agent_ready(request: &SessionHandshake) -> (reply: SessionHandshake)
    ensures
        reply.client_key is None,
{
    SessionHandshake { client_key: None }
}

/// The handler for an agent's answer to `GetDirectories`. It has none yet.
pub fn reply_get_dirs() -> (r: Result<(), ScanError>)
    ensures
        r == Err::<(), ScanError>(ScanError::NotImplemented),
{
    Err(ScanError::NotImplemented)
}

/// The handler for an agent's answer to `GetScanPaths`. It has none yet.
pub fn reply_get_scan_paths() -> (r: Result<(), ScanError>)
    ensures
        r == Err::<(), ScanError>(ScanError::NotImplemented),
{
    Err(ScanError::NotImplemented)
}

/// The feed of control events to one agent.
pub struct ControlFeed {
    sent: u64,
    open: bool,
}

/// A control event to send, after a wait.
#[derive(Debug)]
pub struct Scheduled {
    /// Time units to wait before sending.
    pub delay: u64,
    pub event: ControlEvent,
}

impl ControlFeed {
    /// How many events were handed out for sending, as far as the feed counts.
    pub closed spec fn sent(&self) -> u64 {
        self.sent
    }

    /// Whether the stream still stands.
    pub closed spec fn is_open(&self) -> bool {
        self.open
    }

    /// The feed of a stream that was just opened.
    pub fn agent_listen() -> (feed: ControlFeed)
        ensures
            feed.is_open(),
            feed.sent() == 0,
    {
        ControlFeed { sent: 0, open: true }
    }

    /// Whether the stream still stands.
    pub fn open(&self) -> (b: bool)
        ensures
            b == self.is_open(),
    {
        self.open
    }

    /// The next event to send, or `None` once a send has failed.
    ///
    /// The first event goes out at once and tells the agent to scan `.`;
    /// every later one is a heartbeat, one interval after the one before.
    pub fn next_event(&mut self) -> (r: Option<Scheduled>)
        ensures
            final(self).is_open() == old(self).is_open(),
            !old(self).is_open() ==> r is None && final(self).sent() == old(self).sent(),
            old(self).is_open() ==> r is Some && final(self).sent() == if old(self).sent()
                < u64::MAX {
                (old(self).sent() + 1) as u64
            } else {
                u64::MAX
            },
            old(self).is_open() && old(self).sent() == 0 ==> r->Some_0.delay == 0 && (
            r->Some_0.event matches ControlEvent::ChangeScanPaths { paths_to_add, paths_to_delete }
                && paths_to_add@.len() == 1 && paths_to_add@[0]@ == seq!['.']
                && paths_to_delete@.len() == 0),
            old(self).is_open() && old(self).sent() > 0 ==> r->Some_0.delay == HEARTBEAT_INTERVAL
                && r->Some_0.event is Heartbeat,
    {
        if !self.open {
            return None;
        }
        let first = self.sent == 0;
        if self.sent < u64::MAX {
            self.sent = self.sent + 1;
        }
        if first {
            let mut paths_to_add: Vec<String> = Vec::new();
            proof {
                reveal_strlit(".");
            }
            paths_to_add.push(".".to_owned());
            assert(paths_to_add@[0]@ == seq!['.']);
            Some(
                Scheduled {
                    delay: 0,
                    event: ControlEvent::ChangeScanPaths { paths_to_add, paths_to_delete: Vec::new() },
                },
            )
        } else {
            Some(Scheduled { delay: HEARTBEAT_INTERVAL, event: ControlEvent::Heartbeat })
        }
    }

    /// Records that a send on the stream failed: the agent's control
    /// session is over.
    pub fn send_failed(&mut self)
        ensures
            !final(self).is_open(),
            final(self).sent() == old(self).sent(),
    {
        self.open = false;
    }
}

/// Where an ingest call stands.
#[derive(Clone, Copy, Debug, PartialEq, Eq, Structural)]
pub enum IngestState {
    /// Records are taken.
    Receiving,
    /// The input ended and every record was committed.
    Completed,
    /// A record could not be committed, or the input failed.
    Failed,
}

/// What the driver of an ingest call reports.
#[derive(Clone, Copy, Debug, PartialEq, Eq, Structural)]
pub enum IngestEvent {
    /// The record that arrived was committed in a transaction of its own.
    Committed,
    /// The record that arrived could not be committed.
    CommitFailed,
    /// The input stream failed.
    StreamFailed,
    /// The input stream is exhausted.
    End,
}

/// One call that ingests a stream of records.
pub struct IngestCall {
    state: IngestState,
    committed: u64,
}

/// What an ingest call stands for: its state and how many records it has
/// committed.
pub ghost struct IngestView {
    pub state: IngestState,
    pub committed: nat,
}

/// The call after `event`, and how it has ended, if it has: `Ok` once the
/// input is exhausted, `PersistenceFailure` at the first record that cannot
/// be committed, `TransportFailure` when the input fails. What was
/// committed stays committed; a call that has ended takes nothing more.
pub open spec fn ingest_after(pre: IngestView, event: IngestEvent) -> (
    IngestView,
    Option<Result<(), ScanError>>,
) {
    if pre.state != IngestState::Receiving {
        (pre, None)
    } else {
        match event {
            IngestEvent::Committed => (IngestView { committed: pre.committed + 1, ..pre }, None),
            IngestEvent::CommitFailed => (
                IngestView { state: IngestState::Failed, ..pre },
                Some(Err(ScanError::PersistenceFailure)),
            ),
            IngestEvent::StreamFailed => (
                IngestView { state: IngestState::Failed, ..pre },
                Some(Err(ScanError::TransportFailure)),
            ),
            IngestEvent::End => (IngestView { state: IngestState::Completed, ..pre }, Some(Ok(()))),
        }
    }
}

/// What is committed stays committed: no event takes a record back, only
/// the commit of a record adds one, and a call that has ended stays as it
/// ended.
pub proof fn lemma_ingest_keeps(pre: IngestView, event: IngestEvent)
    ensures
        ingest_after(pre, event).0.committed >= pre.committed,
        ingest_after(pre, event).0.committed > pre.committed ==> event == IngestEvent::Committed
            && pre.state == IngestState::Receiving,
        pre.state != IngestState::Receiving ==> ingest_after(pre, event) == (pre, None::<
            Result<(), ScanError>,
        >),
{
}

impl View for IngestCall {
    type V = IngestView;

    closed spec fn view(&self) -> IngestView {
        IngestView { state: self.state, committed: self.committed as nat }
    }
}

impl IngestCall {
    /// A call that has taken nothing yet.
    pub fn agent_scanned_items() -> (call: IngestCall)
        ensures
            call@ == (IngestView { state: IngestState::Receiving, committed: 0 }),
    {
        IngestCall { state: IngestState::Receiving, committed: 0 }
    }

    /// Where the call stands.
    pub fn state(&self) -> (s: IngestState)
        ensures
            s == self@.state,
    {
        self.state
    }

    /// How many records the call has committed.
    pub fn committed(&self) -> (n: u64)
        ensures
            n == self@.committed,
    {
        self.committed
    }

    /// Whether the call takes another record.
    pub fn accepts(&self) -> (b: bool)
        ensures
            b == (self@.state == IngestState::Receiving),
    {
        self.state == IngestState::Receiving
    }

    /// Takes one event and says how the call has ended, if it has.
    pub fn step(&mut self, event: IngestEvent) -> (done: Option<Result<(), ScanError>>)
        requires
            event == IngestEvent::Committed ==> old(self)@.committed < u64::MAX,
        ensures
            (final(self)@, done) == ingest_after(old(self)@, event),
    {
        if self.state != IngestState::Receiving {
            return None;
        }
        match event {
            IngestEvent::Committed => {
                self.committed = self.committed + 1;
                None
            },
            IngestEvent::CommitFailed => {
                self.state = IngestState::Failed;
                Some(Err(ScanError::PersistenceFailure))
            },
            IngestEvent::StreamFailed => {
                self.state = IngestState::Failed;
                Some(Err(ScanError::TransportFailure))
            },
            IngestEvent::End => {
                self.state = IngestState::Completed;
                Some(Ok(()))
            },
        }
    }
}

/// How a whole ingest call went.
#[derive(Clone, Copy, Debug, PartialEq, Eq, Structural)]
pub struct IngestReport {
    /// Records committed.
    pub committed: usize,
    /// Records for which a commit was attempted.
    pub attempted: usize,
    /// Whether every record was committed.
    pub complete: bool,
}

/// How many of `outcomes` succeed before the first that fails.
pub open spec fn leading_successes(outcomes: Seq<bool>) -> nat
    decreases outcomes.len(),
{
    if outcomes.len() == 0 || !outcomes[0] {
        0
    } else {
        1 + leading_successes(outcomes.drop_first())
    }
}

/// The successes counted from the front stop at the first failure.
pub proof fn lemma_leading_successes(outcomes: Seq<bool>, n: int)
    requires
        0 <= n <= outcomes.len(),
        forall|k: int| 0 <= k < n ==> outcomes[k],
        n < outcomes.len() ==> !outcomes[n],
    ensures
        leading_successes(outcomes) == n,
    decreases n,
{
    if n > 0 {
        let rest = outcomes.drop_first();
        assert forall|k: int| 0 <= k < n - 1 implies rest[k] by {
            assert(outcomes[k + 1]);
        }
        lemma_leading_successes(rest, n - 1);
    }
}

/// Plays one ingest call over a stream of as many records as `outcomes`
/// has entries, where `outcomes[i]` says whether record `i` can be
/// committed.
///
/// Records are committed one by one until the first that fails. That one
/// ends the call with `PersistenceFailure`: the records before it stay
/// committed, and those after it are not attempted.
pub fn ingest_all(outcomes: &Vec<bool>) -> (r: (IngestReport, Result<(), ScanError>))
    ensures
        r.0.committed == leading_successes(outcomes@),
        r.0.complete == (leading_successes(outcomes@) == outcomes@.len()),
        r.0.complete ==> r.0.attempted == outcomes@.len() && r.1 is Ok,
        !r.0.complete ==> r.0.attempted == r.0.committed + 1 && r.1 == Err::<(), ScanError>(
            ScanError::PersistenceFailure,
        ),
{
    let mut call = IngestCall::agent_scanned_items();
    let mut i: usize = 0;
    while i < outcomes.len()
        invariant
            i <= outcomes@.len(),
            call@.state == IngestState::Receiving,
            call@.committed == i,
            forall|k: int| 0 <= k < i ==> outcomes@[k],
        decreases outcomes@.len() - i,
    {
        let event = if outcomes[i] {
            IngestEvent::Committed
        } else {
            IngestEvent::CommitFailed
        };
        match call.step(event) {
            Some(result) => {
                proof {
                    lemma_leading_successes(outcomes@, i as int);
                }
                return (IngestReport { committed: i, attempted: i + 1, complete: false }, result);
            },
            None => {},
        }
        i += 1;
    }
    proof {
        lemma_leading_successes(outcomes@, i as int);
    }
    match call.step(IngestEvent::End) {
        Some(result) => (IngestReport { committed: i, attempted: i, complete: true }, result),
        None => (IngestReport { committed: i, attempted: i, complete: true }, Ok(())),
    }
}

} // verus!
