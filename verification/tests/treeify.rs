use drfiley::error::ScanError;
use drfiley::jobs::{ScanItem, ScanJob};
use drfiley::path::components;
use drfiley::tree::SizeNode;

fn item(path: &str, size_bytes: u64) -> ScanItem {
    ScanItem { path: path.to_string(), size_bytes }
}

fn names(path: &str) -> Vec<String> {
    components(path)
}

#[test]
fn components_of_absolute_path_skip_empty_and_dot() {
    assert_eq!(names("/var//log/./x"), vec!["/", "var", "log", "x"]);
}

#[test]
fn components_keep_leading_current_dir() {
    assert_eq!(names("./a/b/"), vec![".", "a", "b"]);
    assert_eq!(names("."), vec!["."]);
}

#[test]
fn components_of_empty_path_are_none() {
    assert_eq!(names(""), Vec::<String>::new());
}

#[test]
fn components_keep_parent_dir() {
    assert_eq!(names("a/../b"), vec!["a", "..", "b"]);
}

#[test]
fn components_of_root_alone() {
    assert_eq!(names("/"), vec!["/"]);
    assert_eq!(names("///"), vec!["/"]);
}

#[test]
fn components_keep_dotted_names() {
    assert_eq!(names("a/.b/c."), vec!["a", ".b", "c."]);
    assert_eq!(names(".a"), vec![".a"]);
}

#[test]
fn components_handle_non_ascii() {
    assert_eq!(names("dé/ü.txt"), vec!["dé", "ü.txt"]);
}

#[test]
fn scan_job_keeps_its_path() {
    let job = ScanJob::new("some/dir");
    assert_eq!(job.path(), "some/dir");
}

#[test]
fn treeify_root_file_and_sub_file() {
    let files = vec![item("a.txt", 10), item("sub/b.txt", 20)];
    let tree = ScanJob::treeify(&files).unwrap();
    assert!(tree.is_dir());
    assert_eq!(tree.size_bytes(), 30);
    assert_eq!(tree.entry_count(), 2);
    let a = tree.child("a.txt").unwrap();
    assert!(!a.is_dir());
    assert_eq!(a.size_bytes(), 10);
    let sub = tree.child("sub").unwrap();
    assert!(sub.is_dir());
    assert_eq!(sub.size_bytes(), 20);
    assert_eq!(sub.entry_count(), 1);
    let b = sub.child("b.txt").unwrap();
    assert!(!b.is_dir());
    assert_eq!(b.size_bytes(), 20);
}

#[test]
fn treeify_of_nothing_is_the_empty_directory() {
    let tree = ScanJob::treeify(&Vec::new()).unwrap();
    assert!(tree.is_dir());
    assert_eq!(tree.size_bytes(), 0);
    assert_eq!(tree.entry_count(), 0);
}

#[test]
fn treeify_root_size_is_sum_of_all_sizes() {
    let files = vec![
        item("/data/a", 1),
        item("/data/x/b", 2),
        item("/data/x/y/c", 4),
        item("/other/d", 8),
        item("/e", 16),
    ];
    let tree = ScanJob::treeify(&files).unwrap();
    assert_eq!(tree.size_bytes(), 31);
}

#[test]
fn treeify_every_directory_rolls_up_its_subtree() {
    let files = vec![
        item("/data/a", 1),
        item("/data/x/b", 2),
        item("/data/x/y/c", 4),
        item("/other/d", 8),
        item("/e", 16),
    ];
    let tree = ScanJob::treeify(&files).unwrap();
    let root = tree.child("/").unwrap();
    assert_eq!(root.size_bytes(), 31);
    let data = root.child("data").unwrap();
    assert_eq!(data.size_bytes(), 7);
    let x = data.child("x").unwrap();
    assert_eq!(x.size_bytes(), 6);
    let y = x.child("y").unwrap();
    assert_eq!(y.size_bytes(), 4);
    assert_eq!(y.child("c").unwrap().size_bytes(), 4);
    assert_eq!(root.child("other").unwrap().size_bytes(), 8);
    assert_eq!(root.child("e").unwrap().size_bytes(), 16);
    assert!(!root.child("e").unwrap().is_dir());
}

fn sum_of_children(node: &SizeNode, names: &[&str]) -> u64 {
    names.iter().map(|n| node.child(n).unwrap().size_bytes()).sum()
}

#[test]
fn treeify_directory_size_is_sum_of_its_entries() {
    let files = vec![item("p/a", 3), item("p/q/b", 5), item("p/q/c", 7), item("r", 11)];
    let tree = ScanJob::treeify(&files).unwrap();
    assert_eq!(tree.size_bytes(), sum_of_children(&tree, &["p", "r"]));
    let p = tree.child("p").unwrap();
    assert_eq!(p.size_bytes(), sum_of_children(p, &["a", "q"]));
    let q = p.child("q").unwrap();
    assert_eq!(q.size_bytes(), sum_of_children(q, &["b", "c"]));
    assert_eq!(q.size_bytes(), 12);
}

#[test]
fn treeify_twice_gives_identical_trees() {
    let files = vec![item("p/a", 3), item("p/q/b", 5), item("z", 7)];
    let first = ScanJob::treeify(&files).unwrap();
    let second = ScanJob::treeify(&files).unwrap();
    assert_eq!(format!("{:?}", first), format!("{:?}", second));
}

#[test]
fn treeify_same_paths_written_differently_give_same_tree() {
    let plain = vec![item("p/q/b", 5)];
    let noisy = vec![item("p//q/./b", 5)];
    let first = ScanJob::treeify(&plain).unwrap();
    let second = ScanJob::treeify(&noisy).unwrap();
    assert_eq!(format!("{:?}", first), format!("{:?}", second));
}

#[test]
fn treeify_rejects_empty_path() {
    let files = vec![item("", 1)];
    assert_eq!(ScanJob::treeify(&files).err(), Some(ScanError::InvalidPath));
}

#[test]
fn treeify_rejects_root_only_path() {
    let files = vec![item("ok", 1), item("/", 1)];
    assert_eq!(ScanJob::treeify(&files).err(), Some(ScanError::InvalidPath));
}

#[test]
fn treeify_rejects_path_without_file_name() {
    assert_eq!(ScanJob::treeify(&vec![item("a/..", 1)]).err(), Some(ScanError::InvalidPath));
    assert_eq!(ScanJob::treeify(&vec![item(".", 1)]).err(), Some(ScanError::InvalidPath));
}

#[test]
fn treeify_reports_file_where_directory_is_needed() {
    let files = vec![item("a", 1), item("a/b", 2)];
    assert_eq!(ScanJob::treeify(&files).err(), Some(ScanError::StructuralConflict));
}

#[test]
fn treeify_reports_directory_where_file_goes() {
    let files = vec![item("a/b", 2), item("a", 1)];
    assert_eq!(ScanJob::treeify(&files).err(), Some(ScanError::StructuralConflict));
}

#[test]
fn treeify_reports_the_first_failure() {
    let files = vec![item("a", 1), item("a/b", 2), item("", 3)];
    assert_eq!(ScanJob::treeify(&files).err(), Some(ScanError::StructuralConflict));
    let files = vec![item("", 3), item("a", 1), item("a/b", 2)];
    assert_eq!(ScanJob::treeify(&files).err(), Some(ScanError::InvalidPath));
}

#[test]
fn treeify_overwrites_a_file_listed_twice() {
    let files = vec![item("d/a", 5), item("d/a", 7)];
    let tree = ScanJob::treeify(&files).unwrap();
    assert_eq!(tree.size_bytes(), 12);
    let d = tree.child("d").unwrap();
    assert_eq!(d.size_bytes(), 12);
    assert_eq!(d.entry_count(), 1);
    assert_eq!(d.child("a").unwrap().size_bytes(), 7);
}

#[test]
fn treeify_takes_sizes_up_to_the_limit() {
    let files = vec![item("a", u64::MAX - 1), item("b/c", 1)];
    let tree = ScanJob::treeify(&files).unwrap();
    assert_eq!(tree.size_bytes(), u64::MAX);
    assert_eq!(tree.child("b").unwrap().size_bytes(), 1);
}

#[test]
fn child_of_a_file_is_none() {
    let tree = ScanJob::treeify(&vec![item("a", 1)]).unwrap();
    let a = tree.child("a").unwrap();
    assert!(a.child("x").is_none());
    assert_eq!(a.entry_count(), 0);
    assert!(tree.child("missing").is_none());
}

#[test]
fn error_labels() {
    assert_eq!(ScanError::IoFailure.label(), "io failure");
    assert_eq!(ScanError::InvalidPath.label(), "invalid path");
    assert_eq!(ScanError::StructuralConflict.label(), "structural conflict");
    assert_eq!(ScanError::TransportFailure.label(), "transport failure");
    assert_eq!(ScanError::PersistenceFailure.label(), "persistence failure");
    assert_eq!(ScanError::NotImplemented.label(), "not implemented");
}

#[test]
fn total_bytes_sums_the_sizes() {
    assert_eq!(ScanJob::total_bytes(&Vec::new()), Some(0));
    assert_eq!(ScanJob::total_bytes(&vec![item("a", 3), item("b", 4)]), Some(7));
    assert_eq!(ScanJob::total_bytes(&vec![item("a", u64::MAX)]), Some(u64::MAX));
}

#[test]
fn total_bytes_is_none_where_the_sum_does_not_fit() {
    assert_eq!(ScanJob::total_bytes(&vec![item("a", u64::MAX), item("b", 1)]), None);
    assert_eq!(ScanJob::total_bytes(&vec![item("a", u64::MAX), item("b", 1), item("c", 0)]), None);
}

#[test]
fn treeify_fails_exactly_on_a_bad_path_or_a_conflict() {
    // A file and a directory of the same name, whichever comes first.
    assert!(ScanJob::treeify(&vec![item("x/y", 1), item("x/y/z", 1)]).is_err());
    assert!(ScanJob::treeify(&vec![item("x/y/z", 1), item("x/y", 1)]).is_err());
    // Siblings and cousins do not conflict.
    assert!(ScanJob::treeify(&vec![item("x/y", 1), item("x/z", 1), item("w/y/z", 1)]).is_ok());
}

/// The bytes of the files at and beneath `node`, checking on the way up
/// that every directory records exactly that.
fn checked_total(node: &SizeNode) -> u64 {
    match node {
        SizeNode::File { size_bytes } => *size_bytes,
        SizeNode::Directory { size_bytes, children } => {
            let total: u64 = children.iter().map(|(_, child)| checked_total(child)).sum();
            assert_eq!(*size_bytes, total);
            total
        }
    }
}

#[test]
fn treeify_rolls_up_bottom_up() {
    let files = vec![
        item("/data/a", 1),
        item("/data/x/b", 2),
        item("/data/x/y/c", 4),
        item("/other/d", 8),
        item("/e", 16),
        item("rel/f", 32),
        item("/data/x/empty", 0),
    ];
    let tree = ScanJob::treeify(&files).unwrap();
    assert_eq!(checked_total(&tree), 63);
}

#[test]
fn treeify_rolls_up_when_only_empty_files_are_listed_again() {
    let files = vec![item("d/a", 0), item("d/a", 7), item("d/b", 1)];
    let tree = ScanJob::treeify(&files).unwrap();
    assert_eq!(checked_total(&tree), 8);
}
