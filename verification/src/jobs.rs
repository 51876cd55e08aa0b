//! Scanning a directory subtree and folding its files into a size tree.

use crate::error::ScanError;
use crate::path::{components, components_of, names_entry, texts};
use crate::tree::{SizeNode, SizeTree};
use crate::walker::Found;
use vstd::prelude::*;

verus! {

/// Job to collect files and directories of a given directory.
pub struct ScanJob {
    path: String,
}

/// One regular file found by a scan.
#[derive(Debug)]
pub struct ScanItem {
    pub path: String,
    pub size_bytes: u64,
}

/// What one scan gives: the files it found, and their size tree for
/// diagnostics.
#[derive(Debug)]
pub struct ScanReport {
    /// The regular files, in the order of the walk.
    pub files: Vec<ScanItem>,
    /// The size tree of the files, where it can be built.
    pub tree: Option<SizeNode>,
}

/// Whether the components of a path name a file inside a directory: there
/// is a last component, and it is neither the root, `.` nor `..`.
pub open spec fn names_file(comps: Seq<Seq<char>>) -> bool {
    comps.len() > 0 && names_entry(comps.last())
}

/// The sum of the sizes of `items`.
pub open spec fn total_size(items: Seq<ScanItem>) -> nat
    decreases items.len(),
{
    if items.len() == 0 {
        0
    } else {
        total_size(items.drop_last()) + items.last().size_bytes as nat
    }
}

/// The size tree of `items`, built file by file in list order from the
/// empty directory, or the failure of the first file that cannot be placed.
pub open spec fn tree_of(items: Seq<ScanItem>) -> Result<SizeTree, ScanError>
    decreases items.len(),
{
    if items.len() == 0 {
        Ok(SizeTree::empty_dir())
    } else {
        match tree_of(items.drop_last()) {
            Err(e) => Err(e),
            Ok(tree) => {
                let comps = components_of(items.last().path@);
                if names_file(comps) {
                    tree.with_file(comps.drop_last(), comps.last(), items.last().size_bytes as nat)
                } else {
                    Err(ScanError::InvalidPath)
                }
            },
        }
    }
}

/// The directories that hold the file of `item`, outermost first: the
/// components of its path but the last.
pub open spec fn dir_components(item: ScanItem) -> Seq<Seq<char>> {
    components_of(item.path@).drop_last()
}

/// The bytes of the files of `items` that lie in the directory `dir` or
/// anywhere beneath it.
pub open spec fn size_under(items: Seq<ScanItem>, dir: Seq<Seq<char>>) -> nat
    decreases items.len(),
{
    if items.len() == 0 {
        0
    } else {
        size_under(items.drop_last(), dir) + if dir.is_prefix_of(dir_components(items.last())) {
            items.last().size_bytes as nat
        } else {
            0
        }
    }
}

/// The regular files among `found`, in the order of the walk.
pub open spec fn files_of(found: Seq<Found>) -> Seq<ScanItem>
    decreases found.len(),
{
    if found.len() == 0 {
        Seq::empty()
    } else {
        let before = files_of(found.drop_last());
        match found.last() {
            Found::File { path, size_bytes } => before.push(ScanItem { path, size_bytes }),
            _ => before,
        }
    }
}

/// Whether the walk behind `found` could not open its root.
pub open spec fn root_failed(found: Seq<Found>) -> bool {
    exists|i: int| 0 <= i < found.len() && #[trigger] found[i] is RootFailed
}

/// The size that `items` give the file at `path`: that of the last item
/// whose path has the components `path`, or `None` where no item has.
pub open spec fn listed_size(items: Seq<ScanItem>, path: Seq<Seq<char>>) -> Option<nat>
    decreases items.len(),
{
    if items.len() == 0 {
        None
    } else if components_of(items.last().path@) == path {
        Some(items.last().size_bytes as nat)
    } else {
        listed_size(items.drop_last(), path)
    }
}

/// Whether no bytes are listed for a file that is listed again later in
/// `items`: where two items have paths with the same components, the
/// earlier one is empty.
pub open spec fn replaces_no_bytes(items: Seq<ScanItem>) -> bool {
    forall|i: int, j: int|
        0 <= i < j < items.len() && components_of((#[trigger] items[i]).path@) == components_of(
            (#[trigger] items[j]).path@,
        ) ==> items[i].size_bytes == 0
}

/// Whether every path of `items` names a file inside a directory.
pub open spec fn all_name_files(items: Seq<ScanItem>) -> bool {
    forall|i: int| 0 <= i < items.len() ==> names_file(components_of((#[trigger] items[i]).path@))
}

/// Whether no file of `items` stands where another item needs a directory:
/// no item's path is, component by component, a prefix of the directories
/// of an item.
pub open spec fn conflict_free(items: Seq<ScanItem>) -> bool {
    forall|i: int, j: int|
        0 <= i < items.len() && 0 <= j < items.len() ==> !components_of(
            (#[trigger] items[i]).path@,
        ).is_prefix_of(dir_components(#[trigger] items[j]))
}

/// Whether some item of `items` lies in the directory `dir` or beneath it.
pub open spec fn holds_files(items: Seq<ScanItem>, dir: Seq<Seq<char>>) -> bool {
    exists|j: int| 0 <= j < items.len() && dir.is_prefix_of(dir_components(#[trigger] items[j]))
}

/// Whether `name` is an entry's own name rather than the root, `.` or `..`.
fn is_entry_name(name: &String) -> (b: bool)
    ensures
        b == names_entry(name@),
{
    let s = name.as_str();
    let n = s.unicode_len();
    if n == 1 {
        let c = s.get_char(0);
        assert(name@ == seq![c]);
        assert(seq!['/'][0] == '/' && seq!['.'][0] == '.');
        c != '/' && c != '.'
    } else if n == 2 {
        let c = s.get_char(0);
        let d = s.get_char(1);
        assert(name@ == seq![c, d]);
        assert(seq!['.', '.'][0] == '.' && seq!['.', '.'][1] == '.');
        !(c == '.' && d == '.')
    } else {
        assert(seq!['/'].len() == 1 && seq!['.'].len() == 1 && seq!['.', '.'].len() == 2);
        true
    }
}

impl ScanJob {
    /// A job that scans the subtree at `path`.
    pub fn new(path: &str) -> (job: ScanJob)
        ensures
            job.root() == path@,
    {
        ScanJob { path: path.to_owned() }
    }

    /// The path this job scans.
    pub closed spec fn root(&self) -> Seq<char> {
        self.path@
    }

    /// The path this job scans.
    pub fn path(&self) -> (p: &str)
        ensures
            p@ == self.root(),
    {
        self.path.as_str()
    }

    /// Turns what a finished walk found into the list of its regular files,
    /// in the order of the walk. Directories are left out, and so are the
    /// entries that failed on their own. A walk that could not open its
    /// root fails the scan with `IoFailure`, and no list is returned.
    pub fn scan(found: &Vec<Found>) -> (r: Result<Vec<ScanItem>, ScanError>)
        ensures
            root_failed(found@) ==> r is Err && r->Err_0 == ScanError::IoFailure,
            !root_failed(found@) ==> r is Ok && r->Ok_0@ == files_of(found@),
    {
        let mut files: Vec<ScanItem> = Vec::new();
        let mut i: usize = 0;
        while i < found.len()
            invariant
                i <= found@.len(),
                files@ == files_of(found@.take(i as int)),
                !root_failed(found@.take(i as int)),
            decreases found@.len() - i,
        {
            let ghost done = found@.take(i as int);
            let ghost next = found@.take(i + 1);
            assert(next.drop_last() == done);
            assert(next.last() == found@[i as int]);
            match &found[i] {
                Found::File { path, size_bytes } => {
                    files.push(ScanItem { path: path.clone(), size_bytes: *size_bytes });
                },
                Found::RootFailed => {
                    assert(found@[i as int] is RootFailed);
                    return Err(ScanError::IoFailure);
                },
                _ => {},
            }
            assert(!root_failed(next)) by {
                if root_failed(next) {
                    let k = choose|k: int| 0 <= k < next.len() && #[trigger] next[k] is RootFailed;
                    if k < i {
                        assert(done[k] is RootFailed);
                    }
                }
            }
            i += 1;
        }
        assert(found@.take(i as int) == found@);
        Ok(files)
    }

    /// Turns what a finished walk of this job's path found into the scan's
    /// report: the list of files, as [`ScanJob::scan`] gives it, and their
    /// size tree, as [`ScanJob::treeify`] gives it. The tree is left out
    /// where it cannot be built or the sizes do not fit; the list does not
    /// depend on it.
    pub fn run(&self, found: &Vec<Found>) -> (r: Result<ScanReport, ScanError>)
        ensures
            root_failed(found@) ==> r is Err && r->Err_0 == ScanError::IoFailure,
            !root_failed(found@) ==> r is Ok && r->Ok_0.files@ == files_of(found@),
            r is Ok ==> match r->Ok_0.tree {
                Some(tree) => total_size(files_of(found@)) <= u64::MAX && tree_of(
                    files_of(found@),
                ) == Ok::<SizeTree, ScanError>(tree@) && tree.wf(),
                None => total_size(files_of(found@)) > u64::MAX || tree_of(files_of(found@)) is Err,
            },
    {
        let files = match Self::scan(found) {
            Ok(files) => files,
            Err(e) => {
                return Err(e);
            },
        };
        let tree = match Self::total_bytes(&files) {
            Some(_) => match Self::treeify(&files) {
                Ok(tree) => Some(tree),
                Err(_) => None,
            },
            None => None,
        };
        Ok(ScanReport { files, tree })
    }

    /// The sum of the sizes of `files`, or `None` where it does not fit.
    pub fn total_bytes(files: &Vec<ScanItem>) -> (total: Option<u64>)
        ensures
            match total {
                Some(n) => n == total_size(files@),
                None => total_size(files@) > u64::MAX,
            },
    {
        let mut sum: u64 = 0;
        let mut i: usize = 0;
        while i < files.len()
            invariant
                i <= files@.len(),
                sum == total_size(files@.take(i as int)),
            decreases files@.len() - i,
        {
            proof {
                assert(files@.take(i + 1).drop_last() == files@.take(i as int));
                lemma_total_size_prefix(files@, i + 1);
            }
            match sum.checked_add(files[i].size_bytes) {
                Some(next) => {
                    sum = next;
                },
                None => {
                    return None;
                },
            }
            i += 1;
        }
        assert(files@.take(i as int) == files@);
        Some(sum)
    }

    /// Folds the files of one scan into a directory tree in which every
    /// directory carries the bytes of the files beneath it.
    ///
    /// Fails with `InvalidPath` at the first file whose path has no file
    /// name inside a directory, and with `StructuralConflict` at the first
    /// file that needs a directory where a file already stands or that
    /// would replace a directory.
    pub fn treeify(files: &Vec<ScanItem>) -> (r: Result<SizeNode, ScanError>)
        requires
            total_size(files@) <= u64::MAX,
        ensures
            match tree_of(files@) {
                Ok(tree) => r is Ok && r->Ok_0@ == tree && r->Ok_0.wf(),
                Err(e) => r == Err::<SizeNode, ScanError>(e),
            },
            r is Ok <==> all_name_files(files@) && conflict_free(files@),
            r is Ok ==> r->Ok_0@ is Directory && r->Ok_0@.size() == total_size(files@),
            r is Ok && replaces_no_bytes(files@) ==> r->Ok_0.rolled_up(),
    {
        proof {
            lemma_treeify_succeeds(files@);
        }
        let mut tree = SizeNode::Directory { size_bytes: 0, children: Vec::new() };
        assert(tree@ == SizeTree::empty_dir()) by {
            assert(crate::tree::entries_map(Seq::<(String, SizeNode)>::empty()) == Map::<
                Seq<char>,
                SizeTree,
            >::empty());
        }
        let mut i: usize = 0;
        while i < files.len()
            invariant
                i <= files@.len(),
                total_size(files@) <= u64::MAX,
                tree_of(files@.take(i as int)) == Ok::<SizeTree, ScanError>(tree@),
                tree.wf(),
                tree@ is Directory,
                tree@.size() == total_size(files@.take(i as int)),
                replaces_no_bytes(files@) ==> tree.rolled_up(),
                tree_of(files@) is Ok <==> all_name_files(files@) && conflict_free(files@),
            decreases files@.len() - i,
        {
            let ghost done = files@.take(i as int);
            let ghost next = files@.take(i + 1);
            proof {
                assert(next.drop_last() == done);
                assert(next.last() == files@[i as int]);
                lemma_total_size_prefix(files@, i + 1);
                lemma_tree_of_prefix_failure(files@, i + 1);
            }
            let comps = components(files[i].path.as_str());
            if comps.len() == 0 || !is_entry_name(&comps[comps.len() - 1]) {
                return Err(ScanError::InvalidPath);
            }
            assert(texts(comps@).last() == comps@[comps@.len() - 1]@);
            assert(texts(comps@).subrange(0, comps@.len() - 1) == texts(comps@).drop_last());
            proof {
                assert(texts(comps@).skip(0) == texts(comps@));
                if replaces_no_bytes(files@) {
                    lemma_listed_size(done, texts(comps@));
                    lemma_file_sizes(done, texts(comps@));
                    if listed_size(done, texts(comps@)) is Some {
                        let j = choose|j: int|
                            0 <= j < done.len() && components_of((#[trigger] done[j]).path@)
                                == texts(comps@) && listed_size(done, texts(comps@)) == Some(
                                done[j].size_bytes as nat,
                            );
                        assert(done[j] == files@[j]);
                        assert(components_of(files@[j].path@) == components_of(
                            files@[i as int].path@,
                        ));
                    }
                }
            }
            match tree.add_file(&comps, 0, files[i].size_bytes) {
                Err(e) => {
                    return Err(e);
                },
                Ok(()) => {},
            }
            i += 1;
        }
        assert(files@.take(i as int) == files@);
        Ok(tree)
    }
}

/// The sizes of a prefix sum to no more than those of the whole list.
pub proof fn lemma_total_size_prefix(items: Seq<ScanItem>, n: int)
    requires
        0 <= n <= items.len(),
    ensures
        total_size(items.take(n)) <= total_size(items),
    decreases items.len() - n,
{
    if n < items.len() {
        lemma_total_size_prefix(items, n + 1);
        assert(items.take(n + 1).drop_last() == items.take(n));
    } else {
        assert(items.take(n) == items);
    }
}

/// A failure of a prefix is the failure of the whole list.
pub proof fn lemma_tree_of_prefix_failure(items: Seq<ScanItem>, n: int)
    requires
        0 <= n <= items.len(),
    ensures
        tree_of(items.take(n)) is Err ==> tree_of(items) == tree_of(items.take(n)),
    decreases items.len() - n,
{
    if n < items.len() {
        lemma_tree_of_prefix_failure(items, n + 1);
        assert(items.take(n + 1).drop_last() == items.take(n));
    } else {
        assert(items.take(n) == items);
    }
}

/// Every file lies beneath the root: the bytes under the empty path are
/// the bytes of the whole list.
pub proof fn lemma_size_under_root(items: Seq<ScanItem>)
    ensures
        size_under(items, Seq::empty()) == total_size(items),
    decreases items.len(),
{
    if items.len() > 0 {
        lemma_size_under_root(items.drop_last());
        assert(Seq::<Seq<char>>::empty().is_prefix_of(dir_components(items.last())));
    }
}

/// Rollup: in the tree of a list of files, the directory at any path
/// records exactly the bytes of the listed files that lie in it or beneath
/// it, and no listed file lies beneath a path that leads to no directory.
pub proof fn lemma_directory_sizes(items: Seq<ScanItem>, dir: Seq<Seq<char>>)
    requires
        tree_of(items) is Ok,
    ensures
        tree_of(items)->Ok_0.dir_size(dir) == size_under(items, dir),
    decreases items.len(),
{
    if items.len() == 0 {
        if dir.len() > 0 {
            assert(SizeTree::empty_dir().node_at(dir) is None);
        }
    } else {
        let before = tree_of(items.drop_last())->Ok_0;
        let comps = components_of(items.last().path@);
        lemma_directory_sizes(items.drop_last(), dir);
        crate::tree::lemma_with_file_sizes(
            before,
            comps.drop_last(),
            comps.last(),
            items.last().size_bytes as nat,
            dir,
        );
    }
}

/// Round trip: the root of the tree of a list of files is a directory that
/// records the sum of all their sizes.
pub proof fn lemma_root_size(items: Seq<ScanItem>)
    requires
        tree_of(items) is Ok,
    ensures
        tree_of(items)->Ok_0 is Directory,
        tree_of(items)->Ok_0.size() == total_size(items),
{
    lemma_directory_sizes(items, Seq::empty());
    lemma_size_under_root(items);
    lemma_tree_is_directory(items);
}

/// The tree of a list of files is a directory.
pub proof fn lemma_tree_is_directory(items: Seq<ScanItem>)
    requires
        tree_of(items) is Ok,
    ensures
        tree_of(items)->Ok_0 is Directory,
    decreases items.len(),
{
    if items.len() > 0 {
        lemma_tree_is_directory(items.drop_last());
    }
}

/// The tree depends on the paths and sizes alone: two lists that agree on
/// them, file by file, give the same tree or the same failure, so building
/// the tree of one list again gives an identical tree.
pub proof fn lemma_tree_of_same_files(a: Seq<ScanItem>, b: Seq<ScanItem>)
    requires
        a.len() == b.len(),
        forall|i: int|
            0 <= i < a.len() ==> a[i].path@ == b[i].path@ && a[i].size_bytes == b[i].size_bytes,
    ensures
        tree_of(a) == tree_of(b),
    decreases a.len(),
{
    if a.len() > 0 {
        lemma_tree_of_same_files(a.drop_last(), b.drop_last());
    }
}

/// The files of the tree are the listed files: a path leads to a file
/// exactly when some item names it, and the file has the size of the last
/// item that does.
pub proof fn lemma_file_sizes(items: Seq<ScanItem>, path: Seq<Seq<char>>)
    requires
        tree_of(items) is Ok,
    ensures
        tree_of(items)->Ok_0.file_at(path) == listed_size(items, path),
    decreases items.len(),
{
    if items.len() == 0 {
        if path.len() > 0 {
            assert(SizeTree::empty_dir().node_at(path) is None);
        }
    } else {
        let before = tree_of(items.drop_last())->Ok_0;
        let comps = components_of(items.last().path@);
        lemma_file_sizes(items.drop_last(), path);
        crate::tree::lemma_with_file_files(
            before,
            comps.drop_last(),
            comps.last(),
            items.last().size_bytes as nat,
            path,
        );
        assert(comps.drop_last().push(comps.last()) == comps);
    }
}

/// A size that is listed for a path is the size of an item with that path.
pub proof fn lemma_listed_size(items: Seq<ScanItem>, path: Seq<Seq<char>>)
    ensures
        listed_size(items, path) is Some ==> exists|j: int|
            0 <= j < items.len() && components_of((#[trigger] items[j]).path@) == path
                && listed_size(items, path) == Some(items[j].size_bytes as nat),
    decreases items.len(),
{
    if items.len() > 0 {
        if components_of(items.last().path@) == path {
            assert(components_of(items[items.len() - 1].path@) == path);
        } else {
            lemma_listed_size(items.drop_last(), path);
            if listed_size(items, path) is Some {
                let init = items.drop_last();
                let j = choose|j: int|
                    0 <= j < init.len() && components_of((#[trigger] init[j]).path@) == path
                        && listed_size(init, path) == Some(init[j].size_bytes as nat);
                assert(items[j] == init[j]);
            }
        }
    }
}

/// An item with a path is listed with a size for that path.
pub proof fn lemma_listed(items: Seq<ScanItem>, i: int)
    requires
        0 <= i < items.len(),
    ensures
        listed_size(items, components_of(items[i].path@)) is Some,
    decreases items.len(),
{
    if i < items.len() - 1 {
        if components_of(items.last().path@) != components_of(items[i].path@) {
            assert(items.drop_last()[i] == items[i]);
            lemma_listed(items.drop_last(), i);
        }
    }
}

/// The directories of the tree are the root and the directories that hold
/// listed files: a path leads to a directory exactly when it is empty or
/// some item lies in it or beneath it.
pub proof fn lemma_directories(items: Seq<ScanItem>, dir: Seq<Seq<char>>)
    requires
        tree_of(items) is Ok,
    ensures
        tree_of(items)->Ok_0.is_dir_at(dir) <==> dir.len() == 0 || holds_files(items, dir),
    decreases items.len(),
{
    if items.len() == 0 {
        crate::tree::lemma_empty_dir(dir);
    } else {
        let init = items.drop_last();
        let before = tree_of(init)->Ok_0;
        let comps = components_of(items.last().path@);
        lemma_directories(init, dir);
        crate::tree::lemma_with_file_dirs(
            before,
            comps.drop_last(),
            comps.last(),
            items.last().size_bytes as nat,
            dir,
        );
        if holds_files(init, dir) {
            let j = choose|j: int|
                0 <= j < init.len() && dir.is_prefix_of(dir_components(#[trigger] init[j]));
            assert(items[j] == init[j]);
        }
        if dir.is_prefix_of(comps.drop_last()) {
            assert(dir.is_prefix_of(dir_components(items[items.len() - 1])));
        }
        if holds_files(items, dir) {
            let j = choose|j: int|
                0 <= j < items.len() && dir.is_prefix_of(dir_components(#[trigger] items[j]));
            if j < init.len() {
                assert(init[j] == items[j]);
            }
        }
    }
}

/// When the tree can be built: every path names a file inside a
/// directory, and no file stands where another item needs a directory.
pub proof fn lemma_treeify_succeeds(items: Seq<ScanItem>)
    ensures
        tree_of(items) is Ok <==> all_name_files(items) && conflict_free(items),
    decreases items.len(),
{
    if items.len() > 0 {
        let n = items.len() - 1;
        let init = items.drop_last();
        let comps = components_of(items.last().path@);
        let dirs = comps.drop_last();
        lemma_treeify_succeeds(init);
        assert forall|i: int| 0 <= i < init.len() implies init[i] == items[i] by {}
        if tree_of(init) is Ok && names_file(comps) {
            let before = tree_of(init)->Ok_0;
            lemma_tree_is_directory(init);
            crate::tree::lemma_with_file_ok(before, dirs, comps.last(), items.last().size_bytes as nat);
            assert(dirs.push(comps.last()) == comps);
            lemma_directories(init, comps);
            // A file at a prefix of the new item's directories is an
            // earlier item whose path is that prefix.
            assert(crate::tree::no_file_along(before, dirs) <==> forall|i: int|
                0 <= i < n ==> !components_of((#[trigger] items[i]).path@).is_prefix_of(dirs)) by {
                if !crate::tree::no_file_along(before, dirs) {
                    let k = choose|k: int|
                        1 <= k <= dirs.len() && !((#[trigger] before.file_at(dirs.take(k))) is None);
                    lemma_file_sizes(init, dirs.take(k));
                    lemma_listed_size(init, dirs.take(k));
                    let i = choose|i: int|
                        0 <= i < init.len() && components_of((#[trigger] init[i]).path@)
                            == dirs.take(k) && listed_size(init, dirs.take(k)) == Some(
                            init[i].size_bytes as nat,
                        );
                    assert(init[i] == items[i]);
                    assert(components_of(items[i].path@).is_prefix_of(dirs));
                }
                if exists|i: int|
                    0 <= i < n && components_of((#[trigger] items[i]).path@).is_prefix_of(dirs) {
                    let i = choose|i: int|
                        0 <= i < n && components_of((#[trigger] items[i]).path@).is_prefix_of(dirs);
                    let path = components_of(items[i].path@);
                    assert(names_file(path));
                    assert(dirs.take(path.len() as int) == path);
                    lemma_listed(init, i);
                    lemma_file_sizes(init, path);
                    assert(!(before.file_at(dirs.take(path.len() as int)) is None));
                }
            }
            assert(before.is_dir_at(comps) <==> holds_files(init, comps));
            if all_name_files(items) && conflict_free(items) {
                assert(all_name_files(init) && conflict_free(init));
                assert forall|i: int| 0 <= i < n implies !components_of(
                    (#[trigger] items[i]).path@,
                ).is_prefix_of(dirs) by {
                    assert(!components_of(items[i].path@).is_prefix_of(dir_components(items[n])));
                }
                if holds_files(init, comps) {
                    let j = choose|j: int|
                        0 <= j < init.len() && comps.is_prefix_of(
                            dir_components(#[trigger] init[j]),
                        );
                    assert(!components_of(items[n].path@).is_prefix_of(dir_components(items[j])));
                }
                assert(tree_of(items) is Ok);
            }
            if tree_of(items) is Ok {
                assert(all_name_files(items));
                assert forall|i: int, j: int|
                    0 <= i < items.len() && 0 <= j < items.len() implies !components_of(
                    (#[trigger] items[i]).path@,
                ).is_prefix_of(dir_components(#[trigger] items[j])) by {
                    if i < n && j < n {
                        assert(!components_of(init[i].path@).is_prefix_of(dir_components(init[j])));
                    } else if i < n {
                    } else if j < n {
                        if comps.is_prefix_of(dir_components(items[j])) {
                            assert(comps.is_prefix_of(dir_components(init[j])));
                            assert(holds_files(init, comps));
                        }
                    } else {
                        assert(comps.len() > dirs.len());
                    }
                }
            }
        } else {
            assert(tree_of(items) is Err);
            if all_name_files(items) && conflict_free(items) {
                assert(names_file(components_of(items[n].path@)));
                assert(all_name_files(init) && conflict_free(init));
            }
        }
    }
}

/// How building the tree fails: at the first item that cannot be placed,
/// with `InvalidPath` where its path names no file inside a directory, and
/// with `StructuralConflict` else.
pub proof fn lemma_treeify_failure(items: Seq<ScanItem>)
    requires
        tree_of(items) is Err,
    ensures
        exists|k: int|
            0 <= k < items.len() && #[trigger] tree_of(items.take(k)) is Ok && tree_of(
                items.take(k + 1),
            ) is Err && tree_of(items)->Err_0 == if names_file(components_of(items[k].path@)) {
                ScanError::StructuralConflict
            } else {
                ScanError::InvalidPath
            },
    decreases items.len(),
{
    let n = items.len() - 1;
    let init = items.drop_last();
    if tree_of(init) is Err {
        lemma_treeify_failure(init);
        let k = choose|k: int|
            0 <= k < init.len() && #[trigger] tree_of(init.take(k)) is Ok && tree_of(
                init.take(k + 1),
            ) is Err && tree_of(init)->Err_0 == if names_file(components_of(init[k].path@)) {
                ScanError::StructuralConflict
            } else {
                ScanError::InvalidPath
            };
        assert(items.take(k) == init.take(k));
        assert(items.take(k + 1) == init.take(k + 1));
        assert(items[k] == init[k]);
    } else {
        assert(items.take(n) == init);
        assert(items.take(n + 1) == items);
        let comps = components_of(items.last().path@);
        if names_file(comps) {
            lemma_tree_is_directory(init);
            crate::tree::lemma_with_file_ok(
                tree_of(init)->Ok_0,
                comps.drop_last(),
                comps.last(),
                items.last().size_bytes as nat,
            );
        }
    }
}

} // verus!
