//! Queue-driven enumeration of a directory tree.
//!
//! The walker decides; its driver touches the filesystem. The driver hands
//! the walker what the filesystem answered as a [`WalkEvent`], and the
//! walker answers with the next [`WalkAction`]: a directory to open, a read
//! from the directory that is open, an item to hand to the consumer, or the
//! end of the walk. Directories wait in a first-in first-out queue, so the
//! depth of the tree never shows in the call stack: the directory that was
//! opened last is drained, its direct entries only, before the next one in
//! discovery order is opened.

use crate::error::ScanError;
use std::collections::VecDeque;
use vstd::prelude::*;

verus! {

/// A walk of the subtree at `base` that has not started yet.
#[derive(Debug)]
pub struct Walker<P> {
    base: P,
}

/// Where the walker stands between two events.
#[derive(Clone, Copy, Debug, PartialEq, Eq, Structural)]
pub enum Cursor {
    /// Nothing was opened yet; the root waits in the queue.
    Start,
    /// The root is being opened.
    OpeningRoot,
    /// A directory below the root is being opened.
    Opening,
    /// A directory is open and is being drained.
    Reading,
    /// No directory is open; the next one is due.
    Between,
    /// The walk is over.
    Finished,
}

/// What the driver reports to the walker.
#[derive(Debug)]
pub enum WalkEvent<P> {
    /// The consumer asks for the next item.
    Next,
    /// The directory that was to be opened is open.
    Opened,
    /// The directory that was to be opened could not be opened.
    OpenFailed,
    /// The open directory gave an entry that is not a directory.
    File,
    /// The open directory gave an entry that is a directory, at this path.
    Directory(P),
    /// The open directory failed to give its next entry.
    EntryFailed,
    /// The open directory has no more entries.
    Exhausted,
}

/// What the consumer is handed.
#[derive(Clone, Copy, Debug, PartialEq, Eq, Structural)]
pub enum WalkItem {
    /// The entry that was just read, file or directory.
    Entry,
    /// An error in place of the entry that could not be read.
    EntryFailed,
    /// An error in place of the entries of a directory below the root that
    /// could not be opened.
    OpenFailed,
    /// The root could not be opened; nothing follows.
    RootFailed,
}

/// What the driver is to do next.
#[derive(Debug, PartialEq, Eq)]
pub enum WalkAction<P> {
    /// Open this directory and report `Opened` or `OpenFailed`.
    Open(P),
    /// Read the next entry of the open directory and report `File`,
    /// `Directory`, `EntryFailed` or `Exhausted`.
    Read,
    /// Hand this item to the consumer and report `Next` when it asks again.
    Yield(WalkItem),
    /// The walk is over.
    Done,
}

/// The walker in the middle of a walk.
pub struct WalkerIntoIterator<P> {
    cursor: Cursor,
    remaining_dirs: VecDeque<P>,
}

/// The walker's move to the next queued directory: the first of `pending`
/// is to be opened, or the walk is over when none is left.
pub open spec fn advance<P>(pending: Seq<P>) -> (Cursor, Seq<P>, WalkAction<P>) {
    if pending.len() > 0 {
        (Cursor::Opening, pending.drop_first(), WalkAction::Open(pending[0]))
    } else {
        (Cursor::Finished, pending, WalkAction::Done)
    }
}

/// The walker's answer to `event` when it stands at `cursor` with the
/// directories `pending` queued: where it stands afterwards, what is queued
/// then, and what the driver is to do. `None` where the event cannot come at
/// that point.
pub open spec fn transition<P>(cursor: Cursor, pending: Seq<P>, event: WalkEvent<P>) -> Option<
    (Cursor, Seq<P>, WalkAction<P>),
> {
    match (cursor, event) {
        (Cursor::Start, WalkEvent::Next) => if pending.len() > 0 {
            Some((Cursor::OpeningRoot, pending.drop_first(), WalkAction::Open(pending[0])))
        } else {
            Some((Cursor::Finished, pending, WalkAction::Done))
        },
        (Cursor::OpeningRoot, WalkEvent::Opened) => Some((Cursor::Reading, pending, WalkAction::Read)),
        (Cursor::OpeningRoot, WalkEvent::OpenFailed) => Some(
            (Cursor::Finished, pending, WalkAction::Yield(WalkItem::RootFailed)),
        ),
        (Cursor::Opening, WalkEvent::Opened) => Some((Cursor::Reading, pending, WalkAction::Read)),
        (Cursor::Opening, WalkEvent::OpenFailed) => Some(
            (Cursor::Between, pending, WalkAction::Yield(WalkItem::OpenFailed)),
        ),
        (Cursor::Between, WalkEvent::Next) => Some(advance(pending)),
        (Cursor::Reading, WalkEvent::Next) => Some((Cursor::Reading, pending, WalkAction::Read)),
        (Cursor::Reading, WalkEvent::File) => Some(
            (Cursor::Reading, pending, WalkAction::Yield(WalkItem::Entry)),
        ),
        (Cursor::Reading, WalkEvent::Directory(path)) => Some(
            (Cursor::Reading, pending.push(path), WalkAction::Yield(WalkItem::Entry)),
        ),
        (Cursor::Reading, WalkEvent::EntryFailed) => Some(
            (Cursor::Reading, pending, WalkAction::Yield(WalkItem::EntryFailed)),
        ),
        (Cursor::Reading, WalkEvent::Exhausted) => Some(advance(pending)),
        (Cursor::Finished, WalkEvent::Next) => Some((Cursor::Finished, pending, WalkAction::Done)),
        _ => None,
    }
}

/// Starts a walk of the subtree at `path`.
pub fn walk<P>(path: P) -> (r: Result<Walker<P>, ScanError>)
    ensures
        r is Ok,
        r->Ok_0.base() == path,
{
    Ok(Walker { base: path })
}

impl<P> Walker<P> {
    /// The directory the walk starts at.
    pub closed spec fn base(&self) -> P {
        self.base
    }

    /// The walker at the start of the walk, with the root queued.
    pub fn into_iter(self) -> (it: WalkerIntoIterator<P>)
        ensures
            it.cursor() == Cursor::Start,
            it.pending() == seq![self.base()],
    {
        let mut remaining_dirs: VecDeque<P> = VecDeque::new();
        remaining_dirs.push_back(self.base);
        WalkerIntoIterator { cursor: Cursor::Start, remaining_dirs }
    }
}

impl<P> WalkerIntoIterator<P> {
    /// Where the walker stands.
    pub closed spec fn cursor(&self) -> Cursor {
        self.cursor
    }

    /// The directories that were discovered and not opened yet, in
    /// discovery order.
    pub closed spec fn pending(&self) -> Seq<P> {
        self.remaining_dirs@
    }

    /// Where the walker stands.
    pub fn state(&self) -> (c: Cursor)
        ensures
            c == self.cursor(),
    {
        self.cursor
    }

    /// How many directories wait to be opened.
    pub fn pending_len(&self) -> (n: usize)
        ensures
            n == self.pending().len(),
    {
        self.remaining_dirs.len()
    }

    /// Takes the next queued directory, or ends the walk.
    fn advance(&mut self) -> (action: WalkAction<P>)
        ensures
            (final(self).cursor(), final(self).pending(), action) == advance(old(self).pending()),
    {
        match self.remaining_dirs.pop_front() {
            Some(path) => {
                self.cursor = Cursor::Opening;
                WalkAction::Open(path)
            },
            None => {
                self.cursor = Cursor::Finished;
                WalkAction::Done
            },
        }
    }

    /// Takes one event and says what to do next. An event that cannot come
    /// where the walker stands changes nothing and is answered by `None`.
    pub fn step(&mut self, event: WalkEvent<P>) -> (action: Option<WalkAction<P>>)
        ensures
            match transition(old(self).cursor(), old(self).pending(), event) {
                Some((cursor, pending, act)) => {
                    &&& action == Some(act)
                    &&& final(self).cursor() == cursor
                    &&& final(self).pending() == pending
                },
                None => action is None && *final(self) == *old(self),
            },
    {
        match (self.cursor, event) {
            (Cursor::Start, WalkEvent::Next) => {
                let action = self.advance();
                if let WalkAction::Open(_) = &action {
                    self.cursor = Cursor::OpeningRoot;
                }
                Some(action)
            },
            (Cursor::OpeningRoot, WalkEvent::Opened) | (Cursor::Opening, WalkEvent::Opened) => {
                self.cursor = Cursor::Reading;
                Some(WalkAction::Read)
            },
            (Cursor::OpeningRoot, WalkEvent::OpenFailed) => {
                self.cursor = Cursor::Finished;
                Some(WalkAction::Yield(WalkItem::RootFailed))
            },
            (Cursor::Opening, WalkEvent::OpenFailed) => {
                self.cursor = Cursor::Between;
                Some(WalkAction::Yield(WalkItem::OpenFailed))
            },
            (Cursor::Between, WalkEvent::Next) => Some(self.advance()),
            (Cursor::Reading, WalkEvent::Next) => Some(WalkAction::Read),
            (Cursor::Reading, WalkEvent::File) => Some(WalkAction::Yield(WalkItem::Entry)),
            (Cursor::Reading, WalkEvent::Directory(path)) => {
                self.remaining_dirs.push_back(path);
                Some(WalkAction::Yield(WalkItem::Entry))
            },
            (Cursor::Reading, WalkEvent::EntryFailed) => Some(
                WalkAction::Yield(WalkItem::EntryFailed),
            ),
            (Cursor::Reading, WalkEvent::Exhausted) => Some(self.advance()),
            (Cursor::Finished, WalkEvent::Next) => Some(WalkAction::Done),
            _ => None,
        }
    }
}

/// What the driver of a walk found behind one item it was handed.
#[derive(Debug)]
pub enum Found {
    /// A directory.
    Directory { path: String },
    /// A regular file and its size.
    File { path: String, size_bytes: u64 },
    /// An entry that could not be read or stat'ed, or a directory below the
    /// root that could not be opened.
    Failed,
    /// The root could not be opened.
    RootFailed,
}

impl Found {
    /// Whether this stands for a failure.
    pub open spec fn is_failure(self) -> bool {
        self is Failed || self is RootFailed
    }
}

/// How many of `found` are directories.
pub open spec fn count_dirs(found: Seq<Found>) -> nat
    decreases found.len(),
{
    if found.len() == 0 {
        0
    } else {
        count_dirs(found.drop_last()) + if found.last() is Directory {
            1nat
        } else {
            0nat
        }
    }
}

/// How many of `found` are files.
pub open spec fn count_files(found: Seq<Found>) -> nat
    decreases found.len(),
{
    if found.len() == 0 {
        0
    } else {
        count_files(found.drop_last()) + if found.last() is File {
            1nat
        } else {
            0nat
        }
    }
}

/// Whether any of `found` is a failure.
pub open spec fn any_failure(found: Seq<Found>) -> bool {
    exists|i: int| 0 <= i < found.len() && (#[trigger] found[i]).is_failure()
}

/// Counts the directories and the files of a finished walk, in that order.
/// A failure anywhere in the walk fails the count.
pub fn walk_sum(found: &Vec<Found>) -> (r: Result<(usize, usize), ScanError>)
    ensures
        any_failure(found@) ==> r == Err::<(usize, usize), ScanError>(ScanError::IoFailure),
        !any_failure(found@) ==> r == Ok::<(usize, usize), ScanError>(
            (count_dirs(found@) as usize, count_files(found@) as usize),
        ),
        count_dirs(found@) + count_files(found@) <= found@.len(),
{
    let mut sum_dirs: usize = 0;
    let mut sum_files: usize = 0;
    let mut failed = false;
    let mut i: usize = 0;
    while i < found.len()
        invariant
            i <= found@.len(),
            sum_dirs == count_dirs(found@.take(i as int)),
            sum_files == count_files(found@.take(i as int)),
            sum_dirs + sum_files <= i,
            failed == any_failure(found@.take(i as int)),
        decreases found@.len() - i,
    {
        let ghost done = found@.take(i as int);
        let ghost next = found@.take(i + 1);
        assert(next.drop_last() == done);
        assert(next.last() == found@[i as int]);
        assert(any_failure(next) == (any_failure(done) || found@[i as int].is_failure())) by {
            if any_failure(done) {
                let k = choose|k: int| 0 <= k < done.len() && (#[trigger] done[k]).is_failure();
                assert(next[k].is_failure());
            }
            if found@[i as int].is_failure() {
                assert(next[i as int].is_failure());
            }
            if any_failure(next) {
                let k = choose|k: int| 0 <= k < next.len() && (#[trigger] next[k]).is_failure();
                if k < i {
                    assert(done[k].is_failure());
                }
            }
        }
        match &found[i] {
            Found::Directory { .. } => {
                sum_dirs += 1;
            },
            Found::File { .. } => {
                sum_files += 1;
            },
            _ => {
                failed = true;
            },
        }
        i += 1;
    }
    assert(found@.take(i as int) == found@);
    if failed {
        Err(ScanError::IoFailure)
    } else {
        Ok((sum_dirs, sum_files))
    }
}

} // verus!
