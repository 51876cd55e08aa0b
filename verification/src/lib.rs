//! Filesystem inventory: queue-driven directory walking, size rollups over
//! the scanned files, and the decisions of the agent/server synchronisation.

pub mod broadcast;
pub mod configuration;
pub mod dirtree;
pub mod error;
pub mod ingest;
pub mod jobs;
pub mod path;
pub mod session;
pub mod tree;
pub mod walker;

use crate::error::ScanError;
use crate::walker::{any_failure, count_dirs, count_files, Found};
use vstd::prelude::*;

verus! {

/// The totals of a finished walk.
#[derive(Debug)]
pub struct StatSummary {
    /// How many directories were found.
    pub dirs: usize,
    /// How many regular files were found.
    pub files: usize,
    /// The bytes of all the files.
    pub bytes: u64,
    /// The paths of the files, in the order of the walk.
    pub paths: Vec<String>,
}

/// The bytes of the files among `found`.
pub open spec fn total_bytes(found: Seq<Found>) -> nat
    decreases found.len(),
{
    if found.len() == 0 {
        0
    } else {
        total_bytes(found.drop_last()) + match found.last() {
            Found::File { size_bytes, .. } => size_bytes as nat,
            _ => 0,
        }
    }
}

/// The paths of the files among `found`, in order.
pub open spec fn file_paths(found: Seq<Found>) -> Seq<String>
    decreases found.len(),
{
    if found.len() == 0 {
        Seq::empty()
    } else {
        match found.last() {
            Found::File { path, .. } => file_paths(found.drop_last()).push(path),
            _ => file_paths(found.drop_last()),
        }
    }
}

/// A prefix of a walk holds no more bytes than the whole walk.
pub proof fn lemma_total_bytes_prefix(found: Seq<Found>, n: int)
    requires
        0 <= n <= found.len(),
    ensures
        total_bytes(found.take(n)) <= total_bytes(found),
    decreases found.len() - n,
{
    if n < found.len() {
        lemma_total_bytes_prefix(found, n + 1);
        assert(found.take(n + 1).drop_last() == found.take(n));
    } else {
        assert(found.take(n) == found);
    }
}

/// The bytes of the files among `found`, or `None` where they do not fit.
pub fn found_bytes(found: &Vec<Found>) -> (total: Option<u64>)
    ensures
        match total {
            Some(n) => n == total_bytes(found@),
            None => total_bytes(found@) > u64::MAX,
        },
{
    let mut sum: u64 = 0;
    let mut i: usize = 0;
    while i < found.len()
        invariant
            i <= found@.len(),
            sum == total_bytes(found@.take(i as int)),
        decreases found@.len() - i,
    {
        proof {
            assert(found@.take(i + 1).drop_last() == found@.take(i as int));
            lemma_total_bytes_prefix(found@, i + 1);
        }
        if let Found::File { size_bytes, .. } = &found[i] {
            match sum.checked_add(*size_bytes) {
                Some(next) => {
                    sum = next;
                },
                None => {
                    return None;
                },
            }
        }
        i += 1;
    }
    assert(found@.take(i as int) == found@);
    Some(sum)
}

/// Totals a finished walk: its directories, its files, their bytes and
/// their paths. A failure anywhere in the walk fails the total.
pub fn stat_all(found: &Vec<Found>) -> (r: Result<StatSummary, ScanError>)
    requires
        total_bytes(found@) <= u64::MAX,
    ensures
        any_failure(found@) ==> r is Err && r->Err_0 == ScanError::IoFailure,
        !any_failure(found@) ==> r is Ok && r->Ok_0.dirs == count_dirs(found@) && r->Ok_0.files
            == count_files(found@) && r->Ok_0.bytes == total_bytes(found@) && r->Ok_0.paths@
            == file_paths(found@),
{
    let mut dirs: usize = 0;
    let mut files: usize = 0;
    let mut bytes: u64 = 0;
    let mut paths: Vec<String> = Vec::new();
    let mut i: usize = 0;
    while i < found.len()
        invariant
            i <= found@.len(),
            total_bytes(found@) <= u64::MAX,
            dirs == count_dirs(found@.take(i as int)),
            files == count_files(found@.take(i as int)),
            dirs + files <= i,
            bytes == total_bytes(found@.take(i as int)),
            paths@ == file_paths(found@.take(i as int)),
            !any_failure(found@.take(i as int)),
        decreases found@.len() - i,
    {
        let ghost done = found@.take(i as int);
        let ghost next = found@.take(i + 1);
        proof {
            assert(next.drop_last() == done);
            assert(next.last() == found@[i as int]);
            lemma_total_bytes_prefix(found@, i + 1);
        }
        match &found[i] {
            Found::Directory { .. } => {
                dirs += 1;
            },
            Found::File { path, size_bytes } => {
                files += 1;
                bytes = bytes + *size_bytes;
                paths.push(path.clone());
            },
            _ => {
                assert(found@[i as int].is_failure());
                return Err(ScanError::IoFailure);
            },
        }
        assert(!any_failure(next)) by {
            if any_failure(next) {
                let k = choose|k: int| 0 <= k < next.len() && (#[trigger] next[k]).is_failure();
                if k < i {
                    assert(done[k].is_failure());
                }
            }
        }
        i += 1;
    }
    assert(found@.take(i as int) == found@);
    Ok(StatSummary { dirs, files, bytes, paths })
}

} // verus!
