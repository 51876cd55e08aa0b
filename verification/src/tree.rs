//! The size tree: directories annotated with the bytes beneath them.

use crate::error::ScanError;
use crate::path::texts;
use vstd::prelude::*;

verus! {

/// A path component, as the characters of its name.
pub type Segment = Seq<char>;

/// The mathematical size tree: what a [`SizeNode`] stands for, with the
/// children of a directory as a map from name to subtree.
pub ghost enum SizeTree {
    Directory { size_bytes: nat, children: Map<Segment, SizeTree> },
    File { size_bytes: nat },
}

/// One node of the aggregation tree.
#[derive(Debug)]
pub enum SizeNode {
    /// A directory, with the bytes of every file beneath it and its
    /// entries by name. No two entries share a name.
    Directory { size_bytes: u64, children: Vec<(String, SizeNode)> },
    /// A regular file and its size.
    File { size_bytes: u64 },
}

impl SizeTree {
    /// The empty directory.
    pub open spec fn empty_dir() -> SizeTree {
        SizeTree::Directory { size_bytes: 0, children: Map::empty() }
    }

    /// The bytes recorded at this node.
    pub open spec fn size(self) -> nat {
        match self {
            SizeTree::Directory { size_bytes, .. } => size_bytes,
            SizeTree::File { size_bytes } => size_bytes,
        }
    }

    /// The bytes recorded by the directory at `path`, and 0 where `path`
    /// leads to no directory.
    pub open spec fn dir_size(self, path: Seq<Segment>) -> nat {
        match self.node_at(path) {
            Some(SizeTree::Directory { size_bytes, .. }) => size_bytes,
            _ => 0,
        }
    }

    /// The size of the file at `path`, and `None` where `path` leads to no
    /// file.
    pub open spec fn file_at(self, path: Seq<Segment>) -> Option<nat> {
        match self.node_at(path) {
            Some(SizeTree::File { size_bytes }) => Some(size_bytes),
            _ => None,
        }
    }

    /// Whether `path` leads to a directory.
    pub open spec fn is_dir_at(self, path: Seq<Segment>) -> bool {
        self.node_at(path) is Some && self.node_at(path)->Some_0 is Directory
    }

    /// The node reached from `self` by following `path`, if there is one.
    pub open spec fn node_at(self, path: Seq<Segment>) -> Option<SizeTree>
        decreases path.len(),
    {
        if path.len() == 0 {
            Some(self)
        } else {
            match self {
                SizeTree::Directory { children, .. } => if children.contains_key(path[0]) {
                    children[path[0]].node_at(path.drop_first())
                } else {
                    None
                },
                SizeTree::File { .. } => None,
            }
        }
    }
}

/// The map that a list of named entries stands for.
pub open spec fn entries_map(entries: Seq<(String, SizeNode)>) -> Map<Segment, SizeTree>
    decreases entries,
{
    if entries.len() == 0 {
        Map::empty()
    } else {
        entries_map(entries.drop_last()).insert(entries.last().0@, entries.last().1.view())
    }
}

impl View for SizeNode {
    type V = SizeTree;

    open spec fn view(&self) -> SizeTree
        decreases self,
    {
        match self {
            SizeNode::Directory { size_bytes, children } => SizeTree::Directory {
                size_bytes: *size_bytes as nat,
                children: entries_map(children@),
            },
            SizeNode::File { size_bytes } => SizeTree::File { size_bytes: *size_bytes as nat },
        }
    }
}

impl SizeTree {
    /// The tree after one more file: `size` is added to this directory and
    /// to every directory along `dirs`, which are made where they are
    /// missing, and `name` becomes a file of that size in the last of them.
    /// A file where a directory is needed, or a directory where the file
    /// goes, is a conflict.
    pub open spec fn with_file(self, dirs: Seq<Segment>, name: Segment, size: nat) -> Result<
        SizeTree,
        ScanError,
    >
        decreases dirs.len(),
    {
        match self {
            SizeTree::File { .. } => Err(ScanError::StructuralConflict),
            SizeTree::Directory { size_bytes, children } => if dirs.len() == 0 {
                if children.contains_key(name) && children[name] is Directory {
                    Err(ScanError::StructuralConflict)
                } else {
                    Ok(
                        SizeTree::Directory {
                            size_bytes: size_bytes + size,
                            children: children.insert(name, SizeTree::File { size_bytes: size }),
                        },
                    )
                }
            } else {
                let child = if children.contains_key(dirs[0]) {
                    children[dirs[0]]
                } else {
                    SizeTree::empty_dir()
                };
                match child.with_file(dirs.drop_first(), name, size) {
                    Ok(grown) => Ok(
                        SizeTree::Directory {
                            size_bytes: size_bytes + size,
                            children: children.insert(dirs[0], grown),
                        },
                    ),
                    Err(e) => Err(e),
                }
            },
        }
    }
}

impl SizeNode {
    /// The bytes recorded at this node.
    pub fn size_bytes(&self) -> (n: u64)
        ensures
            n == self@.size(),
    {
        match self {
            SizeNode::Directory { size_bytes, .. } => *size_bytes,
            SizeNode::File { size_bytes } => *size_bytes,
        }
    }

    /// Whether this node is a directory.
    pub fn is_dir(&self) -> (b: bool)
        ensures
            b == (self@ is Directory),
    {
        match self {
            SizeNode::Directory { .. } => true,
            SizeNode::File { .. } => false,
        }
    }

    /// The entry called `name` of this directory. A file has no entries.
    pub fn child(&self, name: &str) -> (found: Option<&SizeNode>)
        requires
            self.wf(),
        ensures
            match found {
                Some(node) => self@ is Directory && self@->Directory_children.contains_key(name@)
                    && node@ == self@->Directory_children[name@] && node.wf(),
                None => self@ is File || !self@->Directory_children.contains_key(name@),
            },
    {
        match self {
            SizeNode::File { .. } => None,
            SizeNode::Directory { children, .. } => {
                proof {
                    lemma_entries_map(children@);
                }
                let key = name.to_owned();
                match find_entry(children, &key) {
                    Some(i) => Some(&children[i].1),
                    None => None,
                }
            },
        }
    }

    /// How many entries this directory has. A file has none.
    pub fn entry_count(&self) -> (n: usize)
        requires
            self.wf(),
        ensures
            self@ is File ==> n == 0,
            self@ is Directory ==> n == self@->Directory_children.len(),
    {
        match self {
            SizeNode::File { .. } => 0,
            SizeNode::Directory { children, .. } => {
                proof {
                    lemma_entries_len(children@);
                }
                children.len()
            },
        }
    }

    /// The bytes of all the files at and beneath this node.
    pub open spec fn files_total(&self) -> nat
        decreases self,
    {
        match self {
            SizeNode::Directory { children, .. } => entries_total(children@),
            SizeNode::File { size_bytes } => *size_bytes as nat,
        }
    }

    /// The tree is rolled up: every directory records exactly the bytes of
    /// the files beneath it.
    pub open spec fn rolled_up(&self) -> bool
        decreases self,
    {
        match self {
            SizeNode::Directory { size_bytes, children } => {
                &&& *size_bytes == entries_total(children@)
                &&& forall|i: int|
                    0 <= i < children@.len() ==> (#[trigger] children@[i]).1.rolled_up()
            },
            SizeNode::File { .. } => true,
        }
    }

    /// The tree is well formed: below every directory no two entries share
    /// a name, and no directory records more bytes than the one it is in.
    pub open spec fn wf(&self) -> bool
        decreases self,
    {
        match self {
            SizeNode::Directory { size_bytes, children } => {
                &&& forall|i: int|
                    0 <= i < children@.len() ==> (#[trigger] children@[i]).1.wf()
                &&& forall|i: int|
                    0 <= i < children@.len() && (#[trigger] children@[i]).1 is Directory
                        ==> children@[i].1@.size() <= *size_bytes
                &&& distinct_names(children@)
            },
            SizeNode::File { .. } => true,
        }
    }
}

/// The bytes of all the files among and beneath `entries`.
pub open spec fn entries_total(entries: Seq<(String, SizeNode)>) -> nat
    decreases entries,
{
    if entries.len() == 0 {
        0
    } else {
        entries_total(entries.drop_last()) + entries.last().1.files_total()
    }
}

/// Replacing the node of one entry replaces its share of the total.
pub proof fn lemma_entries_total_update(
    entries: Seq<(String, SizeNode)>,
    i: int,
    entry: (String, SizeNode),
)
    requires
        0 <= i < entries.len(),
    ensures
        entries_total(entries.update(i, entry)) + entries[i].1.files_total() == entries_total(
            entries,
        ) + entry.1.files_total(),
    decreases entries.len(),
{
    let after = entries.update(i, entry);
    if i == entries.len() - 1 {
        assert(after.drop_last() == entries.drop_last());
    } else {
        assert(after.drop_last() == entries.drop_last().update(i, entry));
        lemma_entries_total_update(entries.drop_last(), i, entry);
    }
}

/// No two entries share a name.
pub open spec fn distinct_names(entries: Seq<(String, SizeNode)>) -> bool {
    forall|i: int, j: int|
        0 <= i < j < entries.len() ==> (#[trigger] entries[i]).0@ != (#[trigger] entries[j]).0@
}

/// What `entries_map` holds, for entries with distinct names: exactly the
/// names of the entries, each with the tree of its entry.
pub proof fn lemma_entries_map(entries: Seq<(String, SizeNode)>)
    requires
        distinct_names(entries),
    ensures
        forall|k: Segment| #[trigger]
            entries_map(entries).contains_key(k) <==> exists|i: int|
                0 <= i < entries.len() && (#[trigger] entries[i]).0@ == k,
        forall|i: int|
            0 <= i < entries.len() ==> entries_map(entries)[(#[trigger] entries[i]).0@]
                == entries[i].1@,
    decreases entries.len(),
{
    if entries.len() > 0 {
        let init = entries.drop_last();
        lemma_entries_map(init);
        assert(entries_map(entries) == entries_map(init).insert(
            entries.last().0@,
            entries.last().1@,
        ));
        assert forall|k: Segment| #[trigger]
            entries_map(entries).contains_key(k) implies exists|i: int|
            0 <= i < entries.len() && (#[trigger] entries[i]).0@ == k by {
            if k == entries.last().0@ {
                assert(entries[entries.len() - 1].0@ == k);
            } else {
                assert(entries_map(init).contains_key(k));
                let i = choose|i: int| 0 <= i < init.len() && (#[trigger] init[i]).0@ == k;
                assert(entries[i] == init[i]);
            }
        }
        assert forall|k: Segment|
            (exists|i: int|
                0 <= i < entries.len() && (#[trigger] entries[i]).0@ == k) implies #[trigger]
            entries_map(entries).contains_key(k) by {
            let i = choose|i: int| 0 <= i < entries.len() && (#[trigger] entries[i]).0@ == k;
            if i < init.len() {
                assert(init[i].0@ == k);
            }
        }
        assert forall|i: int| 0 <= i < entries.len() implies entries_map(entries)[(
        #[trigger] entries[i]).0@] == entries[i].1@ by {
            if i < init.len() {
                assert(init[i] == entries[i]);
                assert(entries[i].0@ != entries[entries.len() - 1].0@);
            }
        }
    }
}

/// The bytes of the file at `path` that a new file at `path` replaces, and
/// 0 where there is none.
pub open spec fn replaced_size(tree: SizeTree, path: Seq<Segment>) -> nat {
    match tree.file_at(path) {
        Some(size) => size,
        None => 0,
    }
}

/// The position of the entry called `name`, if there is one.
fn find_entry(children: &Vec<(String, SizeNode)>, name: &String) -> (found: Option<usize>)
    ensures
        match found {
            Some(i) => i < children@.len() && children@[i as int].0@ == name@,
            None => forall|i: int| 0 <= i < children@.len() ==> (#[trigger] children@[i]).0@ != name@,
        },
{
    let mut i: usize = 0;
    while i < children.len()
        invariant
            i <= children@.len(),
            forall|k: int| 0 <= k < i ==> (#[trigger] children@[k]).0@ != name@,
        decreases children@.len() - i,
    {
        if children[i].0 == *name {
            return Some(i);
        }
        i += 1;
    }
    None
}

/// Entries with distinct names stand for a finite map of as many keys.
pub proof fn lemma_entries_len(entries: Seq<(String, SizeNode)>)
    requires
        distinct_names(entries),
    ensures
        entries_map(entries).dom().finite(),
        entries_map(entries).len() == entries.len(),
    decreases entries.len(),
{
    if entries.len() > 0 {
        let init = entries.drop_last();
        lemma_entries_len(init);
        lemma_entries_map(init);
        assert(!entries_map(init).contains_key(entries.last().0@)) by {
            if entries_map(init).contains_key(entries.last().0@) {
                let i = choose|i: int|
                    0 <= i < init.len() && (#[trigger] init[i]).0@ == entries.last().0@;
                assert(entries[i] == init[i]);
                assert(entries[i].0@ != entries[entries.len() - 1].0@);
            }
        }
        assert(entries_map(entries) == entries_map(init).insert(
            entries.last().0@,
            entries.last().1@,
        ));
        assert(entries_map(entries).dom() == entries_map(init).dom().insert(entries.last().0@));
    } else {
        assert(entries_map(entries).dom() == Set::<Segment>::empty());
    }
}

/// Replacing the node of one entry replaces the value at its name.
pub proof fn lemma_entries_update(entries: Seq<(String, SizeNode)>, i: int, entry: (String, SizeNode))
    requires
        distinct_names(entries),
        0 <= i < entries.len(),
        entry.0@ == entries[i].0@,
    ensures
        distinct_names(entries.update(i, entry)),
        entries_map(entries.update(i, entry)) == entries_map(entries).insert(entry.0@, entry.1@),
{
    let after = entries.update(i, entry);
    assert(distinct_names(after)) by {
        assert forall|a: int, b: int| 0 <= a < b < after.len() implies (#[trigger] after[a]).0@ != (
        #[trigger] after[b]).0@ by {
            assert(entries[a].0@ != entries[b].0@);
        }
    }
    lemma_entries_map(entries);
    lemma_entries_map(after);
    let lhs = entries_map(after);
    let rhs = entries_map(entries).insert(entry.0@, entry.1@);
    assert forall|k: Segment| lhs.contains_key(k) <==> rhs.contains_key(k) by {
        if lhs.contains_key(k) {
            let j = choose|j: int| 0 <= j < after.len() && (#[trigger] after[j]).0@ == k;
            assert(entries[j].0@ == k);
        }
        if rhs.contains_key(k) {
            if k == entry.0@ {
                assert(after[i].0@ == k);
            } else {
                let j = choose|j: int| 0 <= j < entries.len() && (#[trigger] entries[j]).0@ == k;
                assert(after[j].0@ == k);
            }
        }
    }
    assert forall|k: Segment| lhs.contains_key(k) implies lhs[k] == rhs[k] by {
        let j = choose|j: int| 0 <= j < after.len() && (#[trigger] after[j]).0@ == k;
        assert(lhs[after[j].0@] == after[j].1@);
        if j != i {
            assert(entries[j].0@ == k);
            assert(entries[j].0@ != entries[i].0@);
            assert(entries_map(entries)[entries[j].0@] == entries[j].1@);
        }
    }
    assert(lhs =~= rhs);
}

/// Adding an entry under a fresh name adds its name and value.
pub proof fn lemma_entries_push(entries: Seq<(String, SizeNode)>, entry: (String, SizeNode))
    requires
        distinct_names(entries),
        forall|i: int| 0 <= i < entries.len() ==> (#[trigger] entries[i]).0@ != entry.0@,
    ensures
        distinct_names(entries.push(entry)),
        !entries_map(entries).contains_key(entry.0@),
        entries_map(entries.push(entry)) == entries_map(entries).insert(entry.0@, entry.1@),
{
    lemma_entries_map(entries);
    assert(entries.push(entry).drop_last() == entries);
}

impl SizeNode {
    /// Records one more file below this node: the entry named by the last
    /// of `comps[at..]`, inside the directories named by the ones before it.
    pub(crate) fn add_file(&mut self, comps: &Vec<String>, at: usize, size: u64) -> (r: Result<
        (),
        ScanError,
    >)
        requires
            old(self).wf(),
            at < comps@.len(),
            old(self)@ is Directory ==> old(self)@.size() + size <= u64::MAX,
        ensures
            match old(self)@.with_file(
                texts(comps@).subrange(at as int, comps@.len() - 1),
                texts(comps@).last(),
                size as nat,
            ) {
                Ok(grown) => r is Ok && final(self)@ == grown && final(self).wf(),
                Err(e) => r == Err::<(), ScanError>(e),
            },
            r is Ok ==> final(self).files_total() + replaced_size(
                old(self)@,
                texts(comps@).skip(at as int),
            ) == old(self).files_total() + size,
            r is Ok && old(self).rolled_up() && replaced_size(
                old(self)@,
                texts(comps@).skip(at as int),
            ) == 0 ==> final(self).rolled_up(),
        decreases comps@.len() - at,
    {
        let ghost dirs = texts(comps@).subrange(at as int, comps@.len() - 1);
        let ghost name = texts(comps@).last();
        let ghost full = texts(comps@).skip(at as int);
        let ghost start = self@;
        match self {
            SizeNode::File { .. } => Err(ScanError::StructuralConflict),
            SizeNode::Directory { size_bytes, children } => {
                let ghost before = children@;
                let ghost size_before = *size_bytes;
                let ghost start_total = entries_total(before);
                let ghost start_rolled = size_before == start_total && forall|k: int|
                    0 <= k < before.len() ==> (#[trigger] before[k]).1.rolled_up();
                proof {
                    lemma_entries_map(before);
                }
                let found = find_entry(children, &comps[at]);
                if at == comps.len() - 1 {
                    assert(dirs.len() == 0);
                    assert(name == comps@[at as int]@);
                    assert(full == seq![name]);
                    assert(full.drop_first().len() == 0);
                    match found {
                        Some(i) => {
                            assert(entries_map(before)[before[i as int].0@] == before[i as int].1@);
                            if children[i].1.is_dir() {
                                return Err(ScanError::StructuralConflict);
                            }
                            assert(start.file_at(full) == Some(before[i as int].1.files_total())) by {
                                let below = entries_map(before)[name];
                                assert(below == before[i as int].1@);
                                assert(start->Directory_children == entries_map(before));
                                assert(start.node_at(full) == below.node_at(full.drop_first()));
                                assert(below.node_at(full.drop_first()) == Some(below));
                            }
                            children[i].1 = SizeNode::File { size_bytes: size };
                            proof {
                                assert(children@ == before.update(i as int, children@[i as int]));
                                lemma_entries_update(before, i as int, children@[i as int]);
                                lemma_entries_total_update(before, i as int, children@[i as int]);
                                assert(children@[i as int].1.files_total() == size);
                                assert(entries_total(children@) + replaced_size(start, full)
                                    == start_total + size);
                            }
                        },
                        None => {
                            let entry = (comps[at].clone(), SizeNode::File { size_bytes: size });
                            proof {
                                lemma_entries_push(before, entry);
                                assert(before.push(entry).drop_last() == before);
                                assert(start.file_at(full) is None);
                            }
                            children.push(entry);
                            assert(entry.1.files_total() == size);
                            assert(entries_total(children@) + replaced_size(start, full)
                                == start_total + size);
                        },
                    }
                    *size_bytes = *size_bytes + size;
                    assert(forall|k: int|
                        0 <= k < children@.len() ==> (#[trigger] children@[k]).1.wf());
                    assert(entries_total(children@) + replaced_size(start, full) == start_total
                        + size);
                    assert(start_rolled ==> forall|k: int|
                        0 <= k < children@.len() ==> (#[trigger] children@[k]).1.rolled_up());
                    Ok(())
                } else {
                    assert(dirs.len() > 0);
                    assert(dirs[0] == comps@[at as int]@);
                    assert(dirs.drop_first() == texts(comps@).subrange(
                        at + 1,
                        comps@.len() - 1,
                    ));
                    let idx = match found {
                        Some(i) => {
                            assert(entries_map(before)[before[i as int].0@] == before[i as int].1@);
                            i
                        },
                        None => {
                            let entry = (
                                comps[at].clone(),
                                SizeNode::Directory { size_bytes: 0, children: Vec::new() },
                            );
                            proof {
                                lemma_entries_push(before, entry);
                                assert(entries_map(Seq::<(String, SizeNode)>::empty())
                                    == Map::<Segment, SizeTree>::empty());
                                assert(entry.1@ == SizeTree::empty_dir());
                                assert(before.push(entry).drop_last() == before);
                                assert(entry.1.files_total() == 0);
                                assert(entry.1.rolled_up());
                            }
                            children.push(entry);
                            children.len() - 1
                        },
                    };
                    let ghost mid = children@;
                    let ghost child_before = mid[idx as int].1;
                    assert(distinct_names(mid));
                    assert(mid[idx as int].0@ == dirs[0]);
                    assert(child_before@ == if entries_map(before).contains_key(dirs[0]) {
                        entries_map(before)[dirs[0]]
                    } else {
                        SizeTree::empty_dir()
                    });
                    assert(entries_map(mid).insert(dirs[0], child_before@) == entries_map(
                        before,
                    ).insert(dirs[0], child_before@)) by {
                        lemma_entries_map(mid);
                        assert(entries_map(mid).insert(dirs[0], child_before@) =~= entries_map(
                            before,
                        ).insert(dirs[0], child_before@));
                    }
                    assert(entries_total(mid) == start_total);
                    assert(full.drop_first() == texts(comps@).skip(at + 1));
                    assert(full[0] == dirs[0]);
                    assert(start.file_at(full) == child_before@.file_at(full.drop_first())) by {
                        if !entries_map(before).contains_key(dirs[0]) {
                            if full.drop_first().len() > 0 {
                                assert(SizeTree::empty_dir().node_at(full.drop_first()) is None);
                            }
                        }
                    }
                    assert(start_rolled ==> child_before.rolled_up());
                    *size_bytes = *size_bytes + size;
                    let child = &mut children[idx].1;
                    let r = child.add_file(comps, at + 1, size);
                    proof {
                        if r is Ok {
                            assert(children@ == mid.update(idx as int, children@[idx as int]));
                            lemma_entries_update(mid, idx as int, children@[idx as int]);
                            lemma_entries_total_update(mid, idx as int, children@[idx as int]);
                            assert(entries_total(children@) + replaced_size(start, full)
                                == start_total + size);
                            assert(start_rolled && replaced_size(start, full) == 0 ==> forall|
                                k: int,
                            |
                                0 <= k < children@.len() ==> (#[trigger] children@[k]).1.rolled_up());
                            assert(entries_map(children@) =~= entries_map(before).insert(
                                dirs[0],
                                children@[idx as int].1@,
                            ));
                            assert(forall|k: int|
                                0 <= k < children@.len() ==> (#[trigger] children@[k]).1.wf());
                        }
                    }
                    r
                }
            },
        }
    }
}

/// Adding a file of `size` bytes inside the directories `dirs` adds `size`
/// to the directory at every prefix of `dirs`, the root included, and
/// leaves the bytes of every other directory as they were.
pub proof fn lemma_with_file_sizes(
    tree: SizeTree,
    dirs: Seq<Segment>,
    name: Segment,
    size: nat,
    at: Seq<Segment>,
)
    requires
        tree.with_file(dirs, name, size) is Ok,
    ensures
        tree.with_file(dirs, name, size)->Ok_0.dir_size(at) == tree.dir_size(at) + if at.is_prefix_of(
            dirs,
        ) {
            size
        } else {
            0
        },
    decreases at.len(),
{
    let grown = tree.with_file(dirs, name, size)->Ok_0;
    let children = tree->Directory_children;
    if at.len() == 0 {
        assert(at.is_prefix_of(dirs));
    } else if dirs.len() == 0 {
        assert(!at.is_prefix_of(dirs));
        if at[0] == name {
            if at.drop_first().len() > 0 {
                assert(SizeTree::File { size_bytes: size }.node_at(at.drop_first()) is None);
                if children.contains_key(name) {
                    assert(children[name].node_at(at.drop_first()) is None);
                }
            }
        }
    } else {
        let child = if children.contains_key(dirs[0]) {
            children[dirs[0]]
        } else {
            SizeTree::empty_dir()
        };
        let below = child.with_file(dirs.drop_first(), name, size)->Ok_0;
        if at[0] == dirs[0] {
            lemma_with_file_sizes(child, dirs.drop_first(), name, size, at.drop_first());
            assert(grown.node_at(at) == below.node_at(at.drop_first()));
            assert(at.is_prefix_of(dirs) <==> at.drop_first().is_prefix_of(dirs.drop_first())) by {
                if at.is_prefix_of(dirs) {
                    assert(at.drop_first() =~= dirs.drop_first().subrange(0, at.len() - 1));
                }
                if at.drop_first().is_prefix_of(dirs.drop_first()) {
                    assert(at =~= dirs.subrange(0, at.len() as int)) by {
                        assert forall|k: int| 0 <= k < at.len() implies at[k] == dirs[k] by {
                            if k > 0 {
                                assert(at.drop_first()[k - 1] == dirs.drop_first().subrange(
                                    0,
                                    at.len() - 1,
                                )[k - 1]);
                            }
                        }
                    }
                }
            }
            if !children.contains_key(dirs[0]) {
                if at.drop_first().len() > 0 {
                    assert(SizeTree::empty_dir().node_at(at.drop_first()) is None);
                }
            }
        } else {
            assert(!at.is_prefix_of(dirs)) by {
                if at.is_prefix_of(dirs) {
                    assert(dirs.subrange(0, at.len() as int)[0] == dirs[0]);
                }
            }
        }
    }
}

/// Adding the file `name` of `size` bytes inside the directories `dirs`
/// puts a file of that size at the path `dirs` then `name`, and leaves the
/// files at every other path as they were.
pub proof fn lemma_with_file_files(
    tree: SizeTree,
    dirs: Seq<Segment>,
    name: Segment,
    size: nat,
    at: Seq<Segment>,
)
    requires
        tree.with_file(dirs, name, size) is Ok,
    ensures
        tree.with_file(dirs, name, size)->Ok_0.file_at(at) == if at == dirs.push(name) {
            Some(size)
        } else {
            tree.file_at(at)
        },
    decreases at.len(),
{
    let grown = tree.with_file(dirs, name, size)->Ok_0;
    let children = tree->Directory_children;
    let full = dirs.push(name);
    if at.len() == 0 {
        assert(full.len() > 0);
    } else if dirs.len() == 0 {
        assert(full[0] == name);
        if at[0] == name {
            if at.len() == 1 {
                assert(at == full);
                assert(at.drop_first().len() == 0);
            } else {
                assert(full.len() == 1);
                assert(SizeTree::File { size_bytes: size }.node_at(at.drop_first()) is None);
                if children.contains_key(name) {
                    assert(children[name].node_at(at.drop_first()) is None);
                }
            }
        } else {
            assert(at != full);
        }
    } else {
        let child = if children.contains_key(dirs[0]) {
            children[dirs[0]]
        } else {
            SizeTree::empty_dir()
        };
        let below = child.with_file(dirs.drop_first(), name, size)->Ok_0;
        assert(full[0] == dirs[0]);
        if at[0] == dirs[0] {
            lemma_with_file_files(child, dirs.drop_first(), name, size, at.drop_first());
            assert(grown.node_at(at) == below.node_at(at.drop_first()));
            assert(full.drop_first() == dirs.drop_first().push(name));
            assert(at == full <==> at.drop_first() == dirs.drop_first().push(name)) by {
                if at.drop_first() == full.drop_first() {
                    assert(at =~= full) by {
                        assert forall|k: int| 0 <= k < at.len() implies at[k] == full[k] by {
                            if k > 0 {
                                assert(at.drop_first()[k - 1] == full.drop_first()[k - 1]);
                            }
                        }
                    }
                }
            }
            if !children.contains_key(dirs[0]) {
                if at.drop_first().len() > 0 {
                    assert(SizeTree::empty_dir().node_at(at.drop_first()) is None);
                }
            }
        } else {
            assert(at != full);
        }
    }
}

/// Below the empty directory there is nothing.
pub proof fn lemma_empty_dir(path: Seq<Segment>)
    ensures
        path.len() > 0 ==> SizeTree::empty_dir().node_at(path) is None,
        SizeTree::empty_dir().file_at(path) is None,
        SizeTree::empty_dir().is_dir_at(path) <==> path.len() == 0,
{
}

/// Adding a file inside the directories `dirs` makes a directory of every
/// prefix of `dirs`, and of no other path.
pub proof fn lemma_with_file_dirs(
    tree: SizeTree,
    dirs: Seq<Segment>,
    name: Segment,
    size: nat,
    at: Seq<Segment>,
)
    requires
        tree.with_file(dirs, name, size) is Ok,
    ensures
        tree.with_file(dirs, name, size)->Ok_0.is_dir_at(at) <==> tree.is_dir_at(at)
            || at.is_prefix_of(dirs),
    decreases at.len(),
{
    let grown = tree.with_file(dirs, name, size)->Ok_0;
    let children = tree->Directory_children;
    if at.len() == 0 {
        assert(at.is_prefix_of(dirs));
    } else if dirs.len() == 0 {
        assert(!at.is_prefix_of(dirs));
        if at[0] == name {
            if at.drop_first().len() > 0 {
                assert(SizeTree::File { size_bytes: size }.node_at(at.drop_first()) is None);
                if children.contains_key(name) {
                    assert(children[name].node_at(at.drop_first()) is None);
                }
            }
        }
    } else {
        let child = if children.contains_key(dirs[0]) {
            children[dirs[0]]
        } else {
            SizeTree::empty_dir()
        };
        let below = child.with_file(dirs.drop_first(), name, size)->Ok_0;
        if at[0] == dirs[0] {
            lemma_with_file_dirs(child, dirs.drop_first(), name, size, at.drop_first());
            assert(grown.node_at(at) == below.node_at(at.drop_first()));
            lemma_prefix_step(at, dirs);
            if !children.contains_key(dirs[0]) {
                lemma_empty_dir(at.drop_first());
                if at.drop_first().len() == 0 {
                    assert(at.drop_first().is_prefix_of(dirs.drop_first()));
                }
            }
        } else {
            assert(!at.is_prefix_of(dirs)) by {
                if at.is_prefix_of(dirs) {
                    assert(dirs.subrange(0, at.len() as int)[0] == dirs[0]);
                }
            }
        }
    }
}

/// Two paths with the same first component: one is a prefix of the other
/// exactly when that holds of what follows the first component.
pub proof fn lemma_prefix_step(a: Seq<Segment>, b: Seq<Segment>)
    requires
        a.len() > 0,
        b.len() > 0,
        a[0] == b[0],
    ensures
        a.is_prefix_of(b) <==> a.drop_first().is_prefix_of(b.drop_first()),
{
    if a.is_prefix_of(b) {
        assert(a.drop_first() =~= b.drop_first().subrange(0, a.len() - 1));
    }
    if a.drop_first().is_prefix_of(b.drop_first()) {
        assert(a =~= b.subrange(0, a.len() as int)) by {
            assert forall|k: int| 0 <= k < a.len() implies a[k] == b[k] by {
                if k > 0 {
                    assert(a.drop_first()[k - 1] == b.drop_first().subrange(0, a.len() - 1)[k
                        - 1]);
                }
            }
        }
    }
}

/// Whether no file stands at a non-empty prefix of `dirs`.
pub open spec fn no_file_along(tree: SizeTree, dirs: Seq<Segment>) -> bool {
    forall|k: int| 1 <= k <= dirs.len() ==> (#[trigger] tree.file_at(dirs.take(k))) is None
}

/// When a file can be added: no file stands at a prefix of `dirs`, where
/// a directory is needed, and no directory stands where the file goes.
/// Nothing else fails, and the failure is a structural conflict.
pub proof fn lemma_with_file_ok(tree: SizeTree, dirs: Seq<Segment>, name: Segment, size: nat)
    requires
        tree is Directory,
    ensures
        tree.with_file(dirs, name, size) is Ok <==> no_file_along(tree, dirs) && !tree.is_dir_at(
            dirs.push(name),
        ),
        tree.with_file(dirs, name, size) is Err ==> tree.with_file(dirs, name, size)->Err_0
            == ScanError::StructuralConflict,
    decreases dirs.len(),
{
    let children = tree->Directory_children;
    let full = dirs.push(name);
    let ok = tree.with_file(dirs, name, size) is Ok;
    if dirs.len() == 0 {
        assert(full.drop_first().len() == 0);
        assert(full[0] == name);
        assert(no_file_along(tree, dirs));
        if children.contains_key(name) {
            assert(tree.node_at(full) == children[name].node_at(full.drop_first()));
            assert(children[name].node_at(full.drop_first()) == Some(children[name]));
        } else {
            assert(tree.node_at(full) is None);
        }
        assert(ok <==> !tree.is_dir_at(full));
    } else {
        let rest = dirs.drop_first();
        assert(full.drop_first() == rest.push(name));
        assert(full[0] == dirs[0]);
        assert(dirs.take(1) == seq![dirs[0]]);
        assert(dirs.take(1).drop_first().len() == 0);
        if !children.contains_key(dirs[0]) {
            lemma_with_file_ok(SizeTree::empty_dir(), rest, name, size);
            lemma_empty_dir(rest.push(name));
            assert(no_file_along(SizeTree::empty_dir(), rest)) by {
                assert forall|k: int| 1 <= k <= rest.len() implies (
                #[trigger] SizeTree::empty_dir().file_at(rest.take(k))) is None by {
                    lemma_empty_dir(rest.take(k));
                }
            }
            assert(ok);
            assert(no_file_along(tree, dirs)) by {
                assert forall|k: int| 1 <= k <= dirs.len() implies (#[trigger] tree.file_at(
                    dirs.take(k),
                )) is None by {
                    assert(dirs.take(k)[0] == dirs[0]);
                }
            }
            assert(!tree.is_dir_at(full));
        } else {
            let child = children[dirs[0]];
            if child is File {
                assert(tree.node_at(dirs.take(1)) == child.node_at(dirs.take(1).drop_first()));
                assert(tree.file_at(dirs.take(1)) is Some);
                assert(!no_file_along(tree, dirs));
                assert(!ok);
            } else {
                lemma_with_file_ok(child, rest, name, size);
                assert(ok <==> child.with_file(rest, name, size) is Ok);
                assert(tree.is_dir_at(full) <==> child.is_dir_at(rest.push(name)));
                assert forall|k: int| 1 <= k <= dirs.len() implies tree.file_at(dirs.take(k))
                    == child.file_at(rest.take(k - 1)) by {
                    assert(dirs.take(k)[0] == dirs[0]);
                    assert(dirs.take(k).drop_first() == rest.take(k - 1));
                }
                assert(child.file_at(rest.take(0)) is None) by {
                    assert(rest.take(0).len() == 0);
                }
                if no_file_along(tree, dirs) {
                    assert forall|k: int| 1 <= k <= rest.len() implies (#[trigger] child.file_at(
                        rest.take(k),
                    )) is None by {
                        assert(tree.file_at(dirs.take(k + 1)) == child.file_at(rest.take(k)));
                    }
                }
                if no_file_along(child, rest) {
                    assert forall|k: int| 1 <= k <= dirs.len() implies (#[trigger] tree.file_at(
                        dirs.take(k),
                    )) is None by {
                        if k > 1 {
                            assert(child.file_at(rest.take(k - 1)) is None);
                        }
                    }
                }
                assert(no_file_along(tree, dirs) <==> no_file_along(child, rest));
            }
        }
    }
}

} // verus!
