use drfiley::dirtree::{walk_tree, DirTree, TreeEntry, Visit};
use drfiley::error::ScanError;
use drfiley::jobs::ScanJob;
use drfiley::{found_bytes, stat_all};
use drfiley::walker::{walk, walk_sum, Cursor, Found, WalkAction, WalkEvent, WalkItem};

fn entry(dir: usize, pos: usize) -> Visit {
    Visit { dir, pos, item: WalkItem::Entry }
}

fn sample_tree() -> DirTree {
    // 0: [file, dir 1, dir 2]   1: [dir 3, file]   2: []   3: [file, file]
    DirTree {
        dirs: vec![
            Some(vec![TreeEntry::File, TreeEntry::Dir(1), TreeEntry::Dir(2)]),
            Some(vec![TreeEntry::Dir(3), TreeEntry::File]),
            Some(vec![]),
            Some(vec![TreeEntry::File, TreeEntry::File]),
        ],
    }
}

#[test]
fn is_tree_accepts_trees() {
    assert!(sample_tree().is_tree());
    assert!(DirTree { dirs: vec![None] }.is_tree());
    assert!(DirTree { dirs: vec![Some(vec![])] }.is_tree());
    assert!(DirTree { dirs: vec![Some(vec![TreeEntry::Dir(1), TreeEntry::Broken]), None] }.is_tree());
}

#[test]
fn is_tree_refuses_what_is_no_tree() {
    // No root.
    assert!(!DirTree { dirs: vec![] }.is_tree());
    // A listing that no entry leads to.
    assert!(!DirTree { dirs: vec![Some(vec![]), Some(vec![])] }.is_tree());
    // Two entries that lead to one listing.
    assert!(!DirTree { dirs: vec![Some(vec![TreeEntry::Dir(1), TreeEntry::Dir(1)]), None] }
        .is_tree());
    // An entry that leads back.
    assert!(!DirTree {
        dirs: vec![Some(vec![TreeEntry::Dir(1)]), Some(vec![TreeEntry::Dir(1)])]
    }
    .is_tree());
    assert!(!DirTree { dirs: vec![Some(vec![TreeEntry::Dir(0)])] }.is_tree());
    // An entry that leads nowhere.
    assert!(!DirTree { dirs: vec![Some(vec![TreeEntry::Dir(5)])] }.is_tree());
    // A loop apart from the root.
    assert!(!DirTree {
        dirs: vec![Some(vec![]), Some(vec![TreeEntry::Dir(2)]), Some(vec![TreeEntry::Dir(1)])]
    }
    .is_tree());
}

#[test]
fn walk_starts_with_the_root_queued() {
    let w = walk("root".to_string()).unwrap().into_iter();
    assert_eq!(w.state(), Cursor::Start);
    assert_eq!(w.pending_len(), 1);
}

#[test]
fn walker_opens_root_then_reads() {
    let mut w = walk("root".to_string()).unwrap().into_iter();
    assert_eq!(w.step(WalkEvent::Next), Some(WalkAction::Open("root".to_string())));
    assert_eq!(w.state(), Cursor::OpeningRoot);
    assert_eq!(w.step(WalkEvent::Opened), Some(WalkAction::Read));
    assert_eq!(w.state(), Cursor::Reading);
}

#[test]
fn walker_yields_files_and_queues_directories() {
    let mut w = walk("root".to_string()).unwrap().into_iter();
    w.step(WalkEvent::Next);
    w.step(WalkEvent::Opened);
    assert_eq!(w.step(WalkEvent::File), Some(WalkAction::Yield(WalkItem::Entry)));
    assert_eq!(w.pending_len(), 0);
    assert_eq!(w.step(WalkEvent::Next), Some(WalkAction::Read));
    assert_eq!(
        w.step(WalkEvent::Directory("root/a".to_string())),
        Some(WalkAction::Yield(WalkItem::Entry))
    );
    assert_eq!(w.pending_len(), 1);
    assert_eq!(w.step(WalkEvent::Next), Some(WalkAction::Read));
    assert_eq!(
        w.step(WalkEvent::Directory("root/b".to_string())),
        Some(WalkAction::Yield(WalkItem::Entry))
    );
    assert_eq!(w.pending_len(), 2);
    assert_eq!(w.step(WalkEvent::Next), Some(WalkAction::Read));
    // The queue is first in, first out.
    assert_eq!(w.step(WalkEvent::Exhausted), Some(WalkAction::Open("root/a".to_string())));
    assert_eq!(w.state(), Cursor::Opening);
    assert_eq!(w.step(WalkEvent::Opened), Some(WalkAction::Read));
    assert_eq!(w.step(WalkEvent::Exhausted), Some(WalkAction::Open("root/b".to_string())));
    assert_eq!(w.step(WalkEvent::Opened), Some(WalkAction::Read));
    assert_eq!(w.step(WalkEvent::Exhausted), Some(WalkAction::Done));
    assert_eq!(w.state(), Cursor::Finished);
    assert_eq!(w.step(WalkEvent::Next), Some(WalkAction::Done));
}

#[test]
fn walker_root_failure_is_one_terminal_error() {
    let mut w = walk(7u32).unwrap().into_iter();
    assert_eq!(w.step(WalkEvent::Next), Some(WalkAction::Open(7)));
    assert_eq!(w.step(WalkEvent::OpenFailed), Some(WalkAction::Yield(WalkItem::RootFailed)));
    assert_eq!(w.state(), Cursor::Finished);
    assert_eq!(w.step(WalkEvent::Next), Some(WalkAction::Done));
    assert_eq!(w.step(WalkEvent::Next), Some(WalkAction::Done));
}

#[test]
fn walker_goes_on_after_a_directory_that_cannot_be_opened() {
    let mut w = walk(0u32).unwrap().into_iter();
    w.step(WalkEvent::Next);
    w.step(WalkEvent::Opened);
    w.step(WalkEvent::Directory(1));
    w.step(WalkEvent::Next);
    w.step(WalkEvent::Directory(2));
    w.step(WalkEvent::Next);
    assert_eq!(w.step(WalkEvent::Exhausted), Some(WalkAction::Open(1)));
    assert_eq!(w.step(WalkEvent::OpenFailed), Some(WalkAction::Yield(WalkItem::OpenFailed)));
    assert_eq!(w.state(), Cursor::Between);
    assert_eq!(w.step(WalkEvent::Next), Some(WalkAction::Open(2)));
    assert_eq!(w.step(WalkEvent::Opened), Some(WalkAction::Read));
}

#[test]
fn walker_attaches_entry_failure_to_that_entry() {
    let mut w = walk(0u32).unwrap().into_iter();
    w.step(WalkEvent::Next);
    w.step(WalkEvent::Opened);
    assert_eq!(w.step(WalkEvent::EntryFailed), Some(WalkAction::Yield(WalkItem::EntryFailed)));
    assert_eq!(w.state(), Cursor::Reading);
    assert_eq!(w.step(WalkEvent::Next), Some(WalkAction::Read));
}

#[test]
fn walker_refuses_events_out_of_place() {
    let mut w = walk(0u32).unwrap().into_iter();
    assert_eq!(w.step(WalkEvent::Opened), None);
    assert_eq!(w.step(WalkEvent::File), None);
    assert_eq!(w.state(), Cursor::Start);
    assert_eq!(w.pending_len(), 1);
    w.step(WalkEvent::Next);
    assert_eq!(w.step(WalkEvent::Next), None);
    assert_eq!(w.step(WalkEvent::Directory(3)), None);
    assert_eq!(w.state(), Cursor::OpeningRoot);
    assert_eq!(w.pending_len(), 0);
    w.step(WalkEvent::Opened);
    assert_eq!(w.step(WalkEvent::Opened), None);
    assert_eq!(w.step(WalkEvent::OpenFailed), None);
    assert_eq!(w.state(), Cursor::Reading);
    w.step(WalkEvent::Exhausted);
    assert_eq!(w.step(WalkEvent::Exhausted), None);
    assert_eq!(w.step(WalkEvent::File), None);
    assert_eq!(w.state(), Cursor::Finished);
}

#[test]
fn walk_tree_visits_every_entry_exactly_once() {
    let tree = sample_tree();
    let out = walk_tree(&tree);
    let mut expected = vec![
        entry(0, 0),
        entry(0, 1),
        entry(0, 2),
        entry(1, 0),
        entry(1, 1),
        entry(3, 0),
        entry(3, 1),
    ];
    assert_eq!(out.len(), expected.len());
    for v in &expected {
        assert_eq!(out.iter().filter(|o| *o == v).count(), 1);
    }
    expected.clear();
}

#[test]
fn walk_tree_drains_a_directory_before_the_next_in_discovery_order() {
    let out = walk_tree(&sample_tree());
    assert_eq!(
        out,
        vec![
            entry(0, 0),
            entry(0, 1),
            entry(0, 2),
            entry(1, 0),
            entry(1, 1),
            entry(3, 0),
            entry(3, 1),
        ]
    );
}

#[test]
fn walk_tree_of_empty_root_visits_nothing() {
    let tree = DirTree { dirs: vec![Some(vec![])] };
    assert_eq!(walk_tree(&tree), Vec::<Visit>::new());
}

#[test]
fn walk_tree_with_unreadable_root_gives_one_error() {
    let tree = DirTree { dirs: vec![None] };
    assert_eq!(walk_tree(&tree), vec![Visit { dir: 0, pos: 0, item: WalkItem::RootFailed }]);
}

#[test]
fn walk_tree_goes_on_after_unreadable_directory() {
    let tree = DirTree {
        dirs: vec![
            Some(vec![TreeEntry::Dir(1), TreeEntry::Dir(2), TreeEntry::Broken]),
            None,
            Some(vec![TreeEntry::File]),
        ],
    };
    assert_eq!(
        walk_tree(&tree),
        vec![
            entry(0, 0),
            entry(0, 1),
            Visit { dir: 0, pos: 2, item: WalkItem::EntryFailed },
            Visit { dir: 1, pos: 0, item: WalkItem::OpenFailed },
            entry(2, 0),
        ]
    );
}

#[test]
fn walk_tree_handles_a_deep_chain() {
    let depth = 2000;
    let mut dirs = Vec::new();
    for d in 0..depth {
        dirs.push(Some(vec![TreeEntry::File, TreeEntry::Dir(d + 1)]));
    }
    dirs.push(Some(vec![TreeEntry::File]));
    let out = walk_tree(&DirTree { dirs });
    assert_eq!(out.len(), 2 * depth + 1);
    assert_eq!(out[0], entry(0, 0));
    assert_eq!(out[2 * depth], entry(depth, 0));
}

fn file(path: &str, size_bytes: u64) -> Found {
    Found::File { path: path.to_string(), size_bytes }
}

fn dir(path: &str) -> Found {
    Found::Directory { path: path.to_string() }
}

#[test]
fn walk_sum_counts_directories_and_files() {
    let found = vec![file("a", 1), dir("d"), file("d/b", 2), dir("d/e"), file("d/e/c", 3)];
    assert_eq!(walk_sum(&found), Ok((2, 3)));
    assert_eq!(walk_sum(&Vec::new()), Ok((0, 0)));
}

#[test]
fn walk_sum_fails_on_any_failure() {
    let found = vec![file("a", 1), Found::Failed, dir("d")];
    assert_eq!(walk_sum(&found), Err(ScanError::IoFailure));
    assert_eq!(walk_sum(&vec![Found::RootFailed]), Err(ScanError::IoFailure));
}

#[test]
fn stat_all_totals_the_walk() {
    let found = vec![file("a", 10), dir("d"), file("d/b", 20), dir("d/e"), file("d/e/c", 12)];
    let summary = stat_all(&found).unwrap();
    assert_eq!(summary.dirs, 2);
    assert_eq!(summary.files, 3);
    assert_eq!(summary.bytes, 42);
    assert_eq!(summary.paths, vec!["a", "d/b", "d/e/c"]);
}

#[test]
fn stat_all_fails_on_any_failure() {
    let found = vec![file("a", 10), Found::Failed];
    assert_eq!(stat_all(&found).err(), Some(ScanError::IoFailure));
}

#[test]
fn scan_lists_the_files_in_walk_order() {
    let found = vec![dir("d"), file("d/b", 20), file("a", 10)];
    let files = ScanJob::scan(&found).unwrap();
    assert_eq!(files.len(), 2);
    assert_eq!(files[0].path, "d/b");
    assert_eq!(files[0].size_bytes, 20);
    assert_eq!(files[1].path, "a");
    assert_eq!(files[1].size_bytes, 10);
}

#[test]
fn scan_skips_entries_that_failed_on_their_own() {
    let found = vec![file("a", 10), Found::Failed, file("b", 5)];
    let files = ScanJob::scan(&found).unwrap();
    assert_eq!(files.len(), 2);
    assert_eq!(files[1].path, "b");
}

#[test]
fn scan_fails_when_the_root_cannot_be_opened() {
    let found = vec![Found::RootFailed];
    assert_eq!(ScanJob::scan(&found).err(), Some(ScanError::IoFailure));
}

#[test]
fn scan_then_treeify_rolls_up() {
    let found = vec![file("a.txt", 10), dir("sub"), file("sub/b.txt", 20)];
    let files = ScanJob::scan(&found).unwrap();
    let tree = ScanJob::treeify(&files).unwrap();
    assert_eq!(tree.size_bytes(), 30);
    assert_eq!(tree.child("sub").unwrap().size_bytes(), 20);
}

#[test]
fn found_bytes_sums_the_files() {
    let found = vec![file("a", 10), dir("d"), Found::Failed, file("d/b", 20)];
    assert_eq!(found_bytes(&found), Some(30));
    assert_eq!(found_bytes(&Vec::new()), Some(0));
}

#[test]
fn found_bytes_is_none_where_the_sum_does_not_fit() {
    let found = vec![file("a", u64::MAX), dir("d"), file("d/b", 1)];
    assert_eq!(found_bytes(&found), None);
}

#[test]
fn run_reports_files_and_tree() {
    let found = vec![file("a.txt", 10), dir("sub"), file("sub/b.txt", 20)];
    let report = ScanJob::new(".").run(&found).unwrap();
    assert_eq!(report.files.len(), 2);
    assert_eq!(report.files[0].path, "a.txt");
    let tree = report.tree.unwrap();
    assert_eq!(tree.size_bytes(), 30);
    assert_eq!(tree.child("sub").unwrap().size_bytes(), 20);
}

#[test]
fn run_fails_when_the_root_cannot_be_opened() {
    let report = ScanJob::new("nowhere").run(&vec![Found::RootFailed]);
    assert_eq!(report.err(), Some(ScanError::IoFailure));
}

#[test]
fn run_keeps_the_list_where_no_tree_can_be_built() {
    let found = vec![file("a", 1), file("a/b", 2)];
    let report = ScanJob::new(".").run(&found).unwrap();
    assert_eq!(report.files.len(), 2);
    assert!(report.tree.is_none());
    let found = vec![file("a", u64::MAX), file("b", 1)];
    let report = ScanJob::new(".").run(&found).unwrap();
    assert_eq!(report.files.len(), 2);
    assert!(report.tree.is_none());
}
