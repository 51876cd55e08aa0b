//! Directory trees held in memory, and the walk of one.
//!
//! A [`DirTree`] answers the walker the way a filesystem would, so that what
//! a walk visits can be stated and proved for every tree.

use crate::walker::{walk, Cursor, WalkAction, WalkEvent, WalkItem, WalkerIntoIterator};
use vstd::prelude::*;

verus! {

/// One entry of a directory listing.
#[derive(Clone, Copy, Debug, PartialEq, Eq, Structural)]
pub enum TreeEntry {
    /// A regular file.
    File,
    /// A directory; its own listing is the one at this index of the tree.
    Dir(usize),
    /// An entry that cannot be read.
    Broken,
}

/// A directory tree: the listing of every directory, the root's first.
/// A directory that cannot be opened has no listing.
#[derive(Debug)]
pub struct DirTree {
    pub dirs: Vec<Option<Vec<TreeEntry>>>,
}

/// One item handed out by a walk: the directory that was being read, the
/// position of the entry in its listing, and what the consumer was handed.
/// The error for a directory that cannot be opened stands at position 0.
#[derive(Clone, Copy, Debug, PartialEq, Eq, Structural)]
pub struct Visit {
    pub dir: usize,
    pub pos: usize,
    pub item: WalkItem,
}

impl DirTree {
    /// Whether the entry at position `i` of directory `d` is the directory `c`.
    pub open spec fn links(&self, d: usize, i: usize, c: usize) -> bool {
        &&& d < self.dirs@.len()
        &&& self.dirs@[d as int] is Some
        &&& i < self.dirs@[d as int]->Some_0@.len()
        &&& self.dirs@[d as int]->Some_0@[i as int] == TreeEntry::Dir(c)
    }

    /// The listings form a tree below the root, directory 0: every entry
    /// that is a directory leads to a later listing, and every listing but
    /// the root's is led to by exactly one entry. Any finite directory tree
    /// can be written so, by numbering each directory after its parent.
    pub open spec fn wf(&self) -> bool {
        &&& self.dirs@.len() > 0
        &&& forall|d: usize, i: usize, c: usize| #[trigger]
            self.links(d, i, c) ==> d < c < self.dirs@.len()
        &&& forall|d1: usize, i1: usize, d2: usize, i2: usize, c: usize|
            #[trigger] self.links(d1, i1, c) && #[trigger] self.links(d2, i2, c) ==> d1 == d2 && i1
                == i2
        &&& forall|c: usize| 0 < c < self.dirs@.len() ==> #[trigger] self.has_parent(c)
    }

    /// Whether some entry is the directory `c`.
    pub open spec fn has_parent(&self, c: usize) -> bool {
        exists|d: usize, i: usize| #[trigger] self.links(d, i, c)
    }

    /// Whether the directory `c` can be reached from the root by following
    /// entries that are directories.
    pub open spec fn reachable(&self, c: usize) -> bool
        decreases c,
    {
        c == 0 || exists|d: usize, i: usize| #[trigger]
            self.links(d, i, c) && d < c && self.reachable(d)
    }

    /// In a tree every directory can be reached from the root, so the
    /// items that are due are those of the directories that any traversal
    /// from the root comes to.
    pub proof fn lemma_all_reachable(&self, c: usize)
        requires
            self.wf(),
            c < self.dirs@.len(),
        ensures
            self.reachable(c),
        decreases c,
    {
        if c > 0 {
            assert(self.has_parent(c));
            let (d, i) = choose|d: usize, i: usize| #[trigger] self.links(d, i, c);
            self.lemma_all_reachable(d);
        }
    }

    /// How many items the directory `d` gives: one for each entry of its
    /// listing, or the one error when it cannot be opened.
    pub open spec fn count(&self, d: int) -> nat {
        match self.dirs@[d] {
            Some(listing) => listing@.len(),
            None => 1,
        }
    }

    /// What the consumer is handed for position `i` of directory `d`.
    pub open spec fn item_at(&self, d: int, i: int) -> WalkItem {
        match self.dirs@[d] {
            Some(listing) => if listing@[i] == TreeEntry::Broken {
                WalkItem::EntryFailed
            } else {
                WalkItem::Entry
            },
            None => if d == 0 {
                WalkItem::RootFailed
            } else {
                WalkItem::OpenFailed
            },
        }
    }

    /// Whether `v` is due in a walk of this tree: it stands for an entry of
    /// the tree, or for a directory of the tree that cannot be opened.
    pub open spec fn expects(&self, v: Visit) -> bool {
        &&& v.dir < self.dirs@.len()
        &&& v.pos < self.count(v.dir as int)
        &&& v.item == self.item_at(v.dir as int, v.pos as int)
    }
}

/// Whether `(d, i)` comes before `(rows, cols)` when the listings are read
/// row by row.
pub open spec fn read_before(d: usize, i: usize, rows: usize, cols: usize) -> bool {
    d < rows || (d == rows && i < cols)
}

/// What a check of the listings knows after reading up to, not including,
/// position `cols` of listing `rows`: every link read so far leads forward
/// and is the one link to its directory, which `who` records, and `seen`
/// tells which directories have a link.
pub open spec fn check_inv(
    tree: &DirTree,
    seen: Seq<bool>,
    who: Seq<(usize, usize)>,
    rows: usize,
    cols: usize,
) -> bool {
    &&& seen.len() == tree.dirs@.len()
    &&& who.len() == tree.dirs@.len()
    &&& forall|d: usize, i: usize, c: usize|
        #![trigger tree.links(d, i, c)]
        tree.links(d, i, c) && read_before(d, i, rows, cols) ==> d < c < tree.dirs@.len()
            && seen[c as int] && who[c as int] == (d, i)
    &&& forall|c: int|
        0 <= c < seen.len() && #[trigger] seen[c] ==> tree.links(who[c].0, who[c].1, c as usize)
            && read_before(who[c].0, who[c].1, rows, cols)
}

impl DirTree {
    /// Whether the listings form a tree below the root.
    pub fn is_tree(&self) -> (b: bool)
        ensures
            b == self.wf(),
    {
        let n = self.dirs.len();
        if n == 0 {
            return false;
        }
        let mut seen: Vec<bool> = Vec::new();
        let ghost mut who: Seq<(usize, usize)> = Seq::empty();
        while seen.len() < n
            invariant
                seen@.len() <= n,
                who.len() == seen@.len(),
                forall|c: int| 0 <= c < seen@.len() ==> !seen@[c],
            decreases n - seen@.len(),
        {
            seen.push(false);
            proof {
                who = who.push((0usize, 0usize));
            }
        }
        let mut d: usize = 0;
        while d < n
            invariant
                n == self.dirs@.len(),
                d <= n,
                check_inv(self, seen@, who, d, 0),
            decreases n - d,
        {
            if let Some(listing) = &self.dirs[d] {
                let mut i: usize = 0;
                while i < listing.len()
                    invariant
                        n == self.dirs@.len(),
                        d < n,
                        self.dirs@[d as int] == Some(*listing),
                        i <= listing@.len(),
                        check_inv(self, seen@, who, d, i),
                    decreases listing@.len() - i,
                {
                    if let TreeEntry::Dir(c) = listing[i] {
                        assert(self.links(d, i, c));
                        if !(d < c && c < n) {
                            return false;
                        }
                        if seen[c] {
                            assert(self.links(who[c as int].0, who[c as int].1, c));
                            assert(who[c as int] != (d, i));
                            return false;
                        }
                        seen.set(c, true);
                        proof {
                            who = who.update(c as int, (d, i));
                        }
                    }
                    assert(check_inv(self, seen@, who, d, (i + 1) as usize)) by {
                        assert forall|d2: usize, i2: usize, c2: usize|
                            #![trigger self.links(d2, i2, c2)]
                            self.links(d2, i2, c2) && read_before(
                                d2,
                                i2,
                                d,
                                (i + 1) as usize,
                            ) implies d2 < c2 < self.dirs@.len() && seen@[c2 as int]
                            && who[c2 as int] == (d2, i2) by {
                            if !(d2 == d && i2 == i) {
                                assert(read_before(d2, i2, d, i));
                            }
                        }
                    }
                    i += 1;
                }
                assert(check_inv(self, seen@, who, (d + 1) as usize, 0)) by {
                    assert forall|d2: usize, i2: usize, c2: usize|
                        #![trigger self.links(d2, i2, c2)]
                        self.links(d2, i2, c2) && read_before(
                            d2,
                            i2,
                            (d + 1) as usize,
                            0,
                        ) implies read_before(d2, i2, d, i) by {}
                }
            } else {
                assert(check_inv(self, seen@, who, (d + 1) as usize, 0)) by {
                    assert forall|d2: usize, i2: usize, c2: usize|
                        #![trigger self.links(d2, i2, c2)]
                        self.links(d2, i2, c2) && read_before(
                            d2,
                            i2,
                            (d + 1) as usize,
                            0,
                        ) implies read_before(d2, i2, d, 0) by {}
                }
            }
            d += 1;
        }
        assert forall|d2: usize, i2: usize, c2: usize| #[trigger]
            self.links(d2, i2, c2) implies read_before(d2, i2, n, 0) by {}
        let mut c: usize = 1;
        while c < n
            invariant
                n == self.dirs@.len(),
                1 <= c <= n,
                check_inv(self, seen@, who, n, 0),
                forall|k: usize| 0 < k < c ==> #[trigger] self.has_parent(k),
            decreases n - c,
        {
            if !seen[c] {
                assert(!self.has_parent(c)) by {
                    if self.has_parent(c) {
                        let (d2, i2) = choose|d2: usize, i2: usize| #[trigger]
                            self.links(d2, i2, c);
                        assert(read_before(d2, i2, n, 0));
                    }
                }
                return false;
            }
            assert(self.links(who[c as int].0, who[c as int].1, c));
            c += 1;
        }
        assert forall|d1: usize, i1: usize, d2: usize, i2: usize, c: usize|
            #[trigger] self.links(d1, i1, c) && #[trigger] self.links(d2, i2, c) implies d1 == d2
            && i1 == i2 by {
            assert(read_before(d1, i1, n, 0));
            assert(read_before(d2, i2, n, 0));
        }
        true
    }
}

/// The directories that a walk has come to know, in discovery order: those
/// it has opened, the one it is about to open, and those still queued.
pub open spec fn discovered(
    opened: Seq<usize>,
    action: WalkAction<usize>,
    pending: Seq<usize>,
) -> Seq<usize> {
    opened + (if action is Open {
        seq![action->Open_0]
    } else {
        Seq::empty()
    }) + pending
}

/// How many items of directory `d` a walk has handed out: all of them,
/// unless `d` is the directory being read, at position `pos`.
pub open spec fn handed_out(
    tree: &DirTree,
    action: WalkAction<usize>,
    cur: usize,
    pos: usize,
    d: int,
) -> nat {
    if action is Read && d == cur {
        pos as nat
    } else {
        tree.count(d)
    }
}

/// Whether the items `out` include the entry that is the directory `c`.
pub open spec fn reached(tree: &DirTree, out: Seq<Visit>, c: usize) -> bool {
    exists|d: usize, i: usize| #[trigger]
        tree.links(d, i, c) && out.contains(Visit { dir: d, pos: i, item: WalkItem::Entry })
}

/// What holds between two rounds of a walk of `tree`: the walker's state
/// and the driver's position agree, the items handed out are those of the
/// directories opened so far, each once, and the directories known are the
/// root and those whose entry was handed out.
pub open spec fn walk_inv(
    tree: &DirTree,
    cursor: Cursor,
    pending: Seq<usize>,
    action: WalkAction<usize>,
    opened: Seq<usize>,
    cur: usize,
    pos: usize,
    out: Seq<Visit>,
) -> bool {
    let all = discovered(opened, action, pending);
    &&& all.no_duplicates()
    &&& all.len() > 0
    &&& all[0] == 0
    &&& forall|k: int| 0 <= k < all.len() ==> #[trigger] all[k] < tree.dirs@.len()
    &&& match action {
        WalkAction::Open(d) => (cursor == Cursor::OpeningRoot && opened.len() == 0
            && pending.len() == 0) || (cursor == Cursor::Opening && opened.len() > 0),
        WalkAction::Read => {
            &&& cursor == Cursor::Reading
            &&& opened.len() > 0
            &&& opened.last() == cur
            &&& tree.dirs@[cur as int] is Some
            &&& pos <= tree.count(cur as int)
        },
        WalkAction::Done => cursor == Cursor::Finished && pending.len() == 0,
        WalkAction::Yield(_) => false,
    }
    &&& out.no_duplicates()
    &&& forall|v: Visit|
        #![trigger out.contains(v)]
        #![trigger tree.expects(v)]
        out.contains(v) <==> tree.expects(v) && opened.contains(v.dir) && v.pos < handed_out(
            tree,
            action,
            cur,
            pos,
            v.dir as int,
        )
    &&& forall|c: usize| #[trigger] all.contains(c) && c != 0 ==> reached(tree, out, c)
    &&& forall|d: usize, i: usize, c: usize| #[trigger]
        tree.links(d, i, c) && out.contains(Visit { dir: d, pos: i, item: WalkItem::Entry })
            ==> all.contains(c)
}

/// The walker's answer to an event that can come where it stands.
fn answer(w: &mut WalkerIntoIterator<usize>, event: WalkEvent<usize>) -> (action: WalkAction<usize>)
    requires
        crate::walker::transition(old(w).cursor(), old(w).pending(), event) is Some,
    ensures
        crate::walker::transition(old(w).cursor(), old(w).pending(), event) == Some(
            (final(w).cursor(), final(w).pending(), action),
        ),
{
    match w.step(event) {
        Some(action) => action,
        None => WalkAction::Done,
    }
}

/// What a sequence holds after one more element.
proof fn lemma_push_contains<T>(s: Seq<T>, x: T)
    ensures
        forall|y: T| #[trigger] s.push(x).contains(y) <==> s.contains(y) || y == x,
{
    assert forall|y: T| #[trigger] s.push(x).contains(y) <==> s.contains(y) || y == x by {
        if s.push(x).contains(y) {
            let k = choose|k: int| 0 <= k < s.push(x).len() && s.push(x)[k] == y;
            if k < s.len() {
                assert(s[k] == y);
            }
        }
        if s.contains(y) {
            let k = choose|k: int| 0 <= k < s.len() && s[k] == y;
            assert(s.push(x)[k] == y);
        }
        if y == x {
            assert(s.push(x)[s.len() as int] == y);
        }
    }
}

/// Before the root is opened the walk has handed out nothing.
proof fn lemma_walk_start(tree: &DirTree, cur: usize, pos: usize)
    requires
        tree.wf(),
    ensures
        walk_inv(
            tree,
            Cursor::OpeningRoot,
            Seq::empty(),
            WalkAction::Open(0),
            Seq::empty(),
            cur,
            pos,
            Seq::empty(),
        ),
{
    let all = discovered(Seq::empty(), WalkAction::Open(0), Seq::empty());
    assert(all == seq![0usize]);
}

/// Opening a directory that can be read starts its listing.
proof fn lemma_walk_opened(
    tree: &DirTree,
    cursor: Cursor,
    pending: Seq<usize>,
    d: usize,
    opened: Seq<usize>,
    cur: usize,
    pos: usize,
    out: Seq<Visit>,
)
    requires
        tree.wf(),
        walk_inv(tree, cursor, pending, WalkAction::Open(d), opened, cur, pos, out),
        d < tree.dirs@.len(),
        tree.dirs@[d as int] is Some,
    ensures
        walk_inv(tree, Cursor::Reading, pending, WalkAction::Read, opened.push(d), d, 0, out),
{
    let all = discovered(opened, WalkAction::Open(d), pending);
    let after = discovered(opened.push(d), WalkAction::Read, pending);
    assert(after == all);
    assert(all[opened.len() as int] == d);
    assert(!opened.contains(d)) by {
        if opened.contains(d) {
            let k = choose|k: int| 0 <= k < opened.len() && opened[k] == d;
            assert(all[k] == d);
        }
    }
    lemma_push_contains(opened, d);
}

/// The items handed out stay handed out, so what was reached stays reached.
proof fn lemma_reached_grows(tree: &DirTree, out: Seq<Visit>, v: Visit, c: usize)
    requires
        reached(tree, out, c),
    ensures
        reached(tree, out.push(v), c),
{
    let (d, i) = choose|d: usize, i: usize| #[trigger]
        tree.links(d, i, c) && out.contains(Visit { dir: d, pos: i, item: WalkItem::Entry });
    lemma_push_contains(out, v);
    assert(tree.links(d, i, c) && out.push(v).contains(
        Visit { dir: d, pos: i, item: WalkItem::Entry },
    ));
}

/// A new element keeps a sequence free of duplicates.
proof fn lemma_push_no_duplicates<T>(s: Seq<T>, x: T)
    requires
        s.no_duplicates(),
        !s.contains(x),
    ensures
        s.push(x).no_duplicates(),
{
    assert forall|a: int, b: int| 0 <= a < s.push(x).len() && 0 <= b < s.push(x).len() && a
        != b implies s.push(x)[a] != s.push(x)[b] by {
        if a < s.len() && b < s.len() {
        } else if a < s.len() {
            assert(s.contains(s[a]));
        } else {
            assert(s.contains(s[b]));
        }
    }
}

/// A directory that cannot be opened gives one error, and the walk goes on
/// with the next queued directory; after the root it ends.
proof fn lemma_walk_open_failed(
    tree: &DirTree,
    cursor: Cursor,
    pending: Seq<usize>,
    d: usize,
    opened: Seq<usize>,
    cur: usize,
    pos: usize,
    out: Seq<Visit>,
)
    requires
        tree.wf(),
        walk_inv(tree, cursor, pending, WalkAction::Open(d), opened, cur, pos, out),
        d < tree.dirs@.len(),
        tree.dirs@[d as int] is None,
    ensures
        tree.item_at(d as int, 0) == if cursor == Cursor::OpeningRoot {
            WalkItem::RootFailed
        } else {
            WalkItem::OpenFailed
        },
        ({
            let v = Visit { dir: d, pos: 0, item: tree.item_at(d as int, 0) };
            let next = if cursor == Cursor::OpeningRoot {
                (Cursor::Finished, pending, WalkAction::Done)
            } else {
                crate::walker::advance(pending)
            };
            walk_inv(tree, next.0, next.1, next.2, opened.push(d), cur, pos, out.push(v))
        }),
{
    let v = Visit { dir: d, pos: 0, item: tree.item_at(d as int, 0) };
    let next = if cursor == Cursor::OpeningRoot {
        (Cursor::Finished, pending, WalkAction::Done)
    } else {
        crate::walker::advance(pending)
    };
    let all = discovered(opened, WalkAction::Open(d), pending);
    let after = discovered(opened.push(d), next.2, next.1);
    let out2 = out.push(v);
    assert(after == all);
    assert(all[opened.len() as int] == d);
    assert(all[0] == 0);
    assert(!opened.contains(d)) by {
        if opened.contains(d) {
            let k = choose|k: int| 0 <= k < opened.len() && opened[k] == d;
            assert(all[k] == d);
        }
    }
    if cursor != Cursor::OpeningRoot {
        assert(all[0] == opened[0]);
        assert(d != 0);
    }
    lemma_push_contains(opened, d);
    lemma_push_contains(out, v);
    assert(!out.contains(v));
    lemma_push_no_duplicates(out, v);
    assert forall|c: usize| #[trigger] after.contains(c) && c != 0 implies reached(
        tree,
        out2,
        c,
    ) by {
        lemma_reached_grows(tree, out, v, c);
    }
}

/// Reading one entry hands it out, and queues it when it is a directory.
proof fn lemma_walk_entry(
    tree: &DirTree,
    pending: Seq<usize>,
    opened: Seq<usize>,
    cur: usize,
    pos: usize,
    out: Seq<Visit>,
)
    requires
        tree.wf(),
        walk_inv(tree, Cursor::Reading, pending, WalkAction::Read, opened, cur, pos, out),
        pos < tree.count(cur as int),
        pos < usize::MAX,
    ensures
        ({
            let entry = tree.dirs@[cur as int]->Some_0@[pos as int];
            let queued = if entry is Dir {
                pending.push(entry->Dir_0)
            } else {
                pending
            };
            let v = Visit { dir: cur, pos, item: tree.item_at(cur as int, pos as int) };
            walk_inv(
                tree,
                Cursor::Reading,
                queued,
                WalkAction::Read,
                opened,
                cur,
                (pos + 1) as usize,
                out.push(v),
            )
        }),
{
    let all = discovered(opened, WalkAction::Read, pending);
    assert(opened[opened.len() - 1] == cur);
    assert(all[opened.len() - 1] == cur);
    assert(cur < tree.dirs@.len());
    assert(opened.contains(cur));
    let entry = tree.dirs@[cur as int]->Some_0@[pos as int];
    let queued = if entry is Dir {
        pending.push(entry->Dir_0)
    } else {
        pending
    };
    let v = Visit { dir: cur, pos, item: tree.item_at(cur as int, pos as int) };
    let after = discovered(opened, WalkAction::Read, queued);
    let out2 = out.push(v);
    assert(tree.expects(v));
    lemma_push_contains(out, v);
    assert(!out.contains(v));
    lemma_push_no_duplicates(out, v);
    if entry is Dir {
        let c = entry->Dir_0;
        assert(tree.links(cur, pos, c));
        assert(after == all.push(c));
        assert(!all.contains(c)) by {
            if all.contains(c) {
                assert(reached(tree, out, c));
                let (d, i) = choose|d: usize, i: usize| #[trigger]
                    tree.links(d, i, c) && out.contains(
                        Visit { dir: d, pos: i, item: WalkItem::Entry },
                    );
                assert(d == cur && i == pos);
            }
        }
        lemma_push_no_duplicates(all, c);
        lemma_push_contains(all, c);
        assert(reached(tree, out2, c)) by {
            assert(tree.links(cur, pos, c) && out2.contains(
                Visit { dir: cur, pos, item: WalkItem::Entry },
            ));
        }
    } else {
        assert(after == all);
    }
    assert forall|c: usize| #[trigger] after.contains(c) && c != 0 implies reached(
        tree,
        out2,
        c,
    ) by {
        if all.contains(c) {
            lemma_reached_grows(tree, out, v, c);
        }
    }
    assert forall|d: usize, i: usize, c: usize| #[trigger]
        tree.links(d, i, c) && out2.contains(
            Visit { dir: d, pos: i, item: WalkItem::Entry },
        ) implies after.contains(c) by {
        let w = Visit { dir: d, pos: i, item: WalkItem::Entry };
        if out.contains(w) {
            assert(all.contains(c));
        } else {
            assert(w == v);
            assert(d == cur && i == pos);
        }
    }
    assert forall|w: Visit|
        #![trigger out2.contains(w)]
        #![trigger tree.expects(w)]
        out2.contains(w) <==> tree.expects(w) && opened.contains(w.dir) && w.pos < handed_out(
            tree,
            WalkAction::Read,
            cur,
            (pos + 1) as usize,
            w.dir as int,
        ) by {
        if tree.expects(w) && w.dir == cur && w.pos == pos {
            assert(w == v);
        }
        if out.contains(w) {
            assert(tree.expects(w) && opened.contains(w.dir) && w.pos < handed_out(
                tree,
                WalkAction::Read,
                cur,
                pos,
                w.dir as int,
            ));
        }
        if tree.expects(w) && opened.contains(w.dir) && w.pos < handed_out(
            tree,
            WalkAction::Read,
            cur,
            (pos + 1) as usize,
            w.dir as int,
        ) && w != v {
            assert(w.pos < handed_out(tree, WalkAction::Read, cur, pos, w.dir as int));
            assert(out.contains(w));
        }
    }
}

/// When the open directory has no more entries the walk opens the next
/// queued directory, or ends when none is queued.
proof fn lemma_walk_exhausted(
    tree: &DirTree,
    pending: Seq<usize>,
    opened: Seq<usize>,
    cur: usize,
    pos: usize,
    out: Seq<Visit>,
)
    requires
        tree.wf(),
        walk_inv(tree, Cursor::Reading, pending, WalkAction::Read, opened, cur, pos, out),
        pos == tree.count(cur as int),
    ensures
        ({
            let next = crate::walker::advance(pending);
            walk_inv(tree, next.0, next.1, next.2, opened, cur, pos, out)
        }),
{
    let next = crate::walker::advance(pending);
    let all = discovered(opened, WalkAction::Read, pending);
    let after = discovered(opened, next.2, next.1);
    assert(after == all);
}

/// Distinct numbers below `n` are at most `n` many.
proof fn lemma_distinct_bounded(s: Seq<usize>, n: nat)
    requires
        s.no_duplicates(),
        forall|k: int| 0 <= k < s.len() ==> #[trigger] s[k] < n,
    ensures
        s.len() <= n,
    decreases n,
{
    if n == 0 {
        if s.len() > 0 {
            assert(s[0] < n);
        }
    } else if exists|k: int| 0 <= k < s.len() && s[k] == n - 1 {
        let k = choose|k: int| 0 <= k < s.len() && s[k] == n - 1;
        let rest = Seq::new(
            (s.len() - 1) as nat,
            |j: int|
                if j < k {
                    s[j]
                } else {
                    s[j + 1]
                },
        );
        assert forall|j: int| 0 <= j < rest.len() implies #[trigger] rest[j] < n - 1 by {
            let from = if j < k {
                j
            } else {
                j + 1
            };
            assert(s[from] < n);
            assert(s[from] != s[k]);
        }
        assert forall|a: int, b: int| 0 <= a < rest.len() && 0 <= b < rest.len() && a
            != b implies rest[a] != rest[b] by {
            let fa = if a < k {
                a
            } else {
                a + 1
            };
            let fb = if b < k {
                b
            } else {
                b + 1
            };
            assert(s[fa] != s[fb]);
        }
        lemma_distinct_bounded(rest, (n - 1) as nat);
    } else {
        assert forall|j: int| 0 <= j < s.len() implies #[trigger] s[j] < n - 1 by {
            assert(s[j] < n);
        }
        lemma_distinct_bounded(s, (n - 1) as nat);
    }
}

/// When the walk is over every directory of the tree was opened.
proof fn lemma_all_opened(
    tree: &DirTree,
    opened: Seq<usize>,
    cur: usize,
    pos: usize,
    out: Seq<Visit>,
    c: usize,
)
    requires
        tree.wf(),
        walk_inv(tree, Cursor::Finished, Seq::empty(), WalkAction::Done, opened, cur, pos, out),
        c < tree.dirs@.len(),
    ensures
        opened.contains(c),
    decreases c,
{
    let all = discovered(opened, WalkAction::Done, Seq::empty());
    assert(all == opened);
    if c == 0 {
        assert(opened[0] == 0);
    } else {
        assert(tree.has_parent(c));
        let (d, i) = choose|d: usize, i: usize| #[trigger] tree.links(d, i, c);
        lemma_all_opened(tree, opened, cur, pos, out, d);
        let v = Visit { dir: d, pos: i, item: WalkItem::Entry };
        assert(tree.expects(v));
        assert(out.contains(v));
    }
}

/// When the walk is over it has handed out exactly the items that are due.
proof fn lemma_walk_done(
    tree: &DirTree,
    opened: Seq<usize>,
    cur: usize,
    pos: usize,
    out: Seq<Visit>,
)
    requires
        tree.wf(),
        walk_inv(tree, Cursor::Finished, Seq::empty(), WalkAction::Done, opened, cur, pos, out),
    ensures
        out.no_duplicates(),
        forall|v: Visit| #[trigger] out.contains(v) <==> tree.expects(v),
{
    assert forall|v: Visit| #[trigger] out.contains(v) <==> tree.expects(v) by {
        if tree.expects(v) {
            lemma_all_opened(tree, opened, cur, pos, out, v.dir);
        }
    }
}

/// Whether the directory `first` was found before the directory `second`
/// in the walk that handed out `out`: it is the root, or the entry that is
/// `first` was handed out before the entry that is `second`.
pub open spec fn found_before(tree: &DirTree, out: Seq<Visit>, first: usize, second: usize) -> bool {
    first == 0 || exists|k1: int, k2: int|
        0 <= k1 < k2 < out.len() && #[trigger] tree.links(out[k1].dir, out[k1].pos, first)
            && #[trigger] tree.links(out[k2].dir, out[k2].pos, second)
}

/// Whether `out` is in level order: the items of one directory stand in
/// the order of its listing, and the items of a directory that was found
/// earlier stand before those of one that was found later.
pub open spec fn level_ordered(tree: &DirTree, out: Seq<Visit>) -> bool {
    forall|a: int, b: int|
        0 <= a < b < out.len() ==> if (#[trigger] out[a]).dir == (#[trigger] out[b]).dir {
            out[a].pos < out[b].pos
        } else {
            found_before(tree, out, out[a].dir, out[b].dir)
        }
}

/// What holds of the order of a walk between two rounds: `slot` gives for
/// each item the place of its directory among the opened ones, and never
/// falls; `parent_at` gives for each known directory but the root the place
/// of its entry among the items, and rises.
pub open spec fn order_inv(
    tree: &DirTree,
    opened: Seq<usize>,
    all: Seq<usize>,
    out: Seq<Visit>,
    slot: Seq<int>,
    parent_at: Seq<int>,
) -> bool {
    &&& slot.len() == out.len()
    &&& forall|a: int|
        0 <= a < out.len() ==> 0 <= #[trigger] slot[a] < opened.len() && opened[slot[a]]
            == out[a].dir
    &&& forall|a: int, b: int|
        0 <= a < b < out.len() ==> #[trigger] slot[a] <= #[trigger] slot[b] && (slot[a] == slot[b]
            ==> out[a].pos < out[b].pos)
    &&& parent_at.len() == all.len()
    &&& forall|x: int|
        1 <= x < all.len() ==> 0 <= #[trigger] parent_at[x] < out.len() && tree.links(
            out[parent_at[x]].dir,
            out[parent_at[x]].pos,
            all[x],
        )
    &&& forall|x: int, y: int|
        1 <= x < y < all.len() ==> #[trigger] parent_at[x] < #[trigger] parent_at[y]
}

/// One more item keeps the order when its directory is the last opened and
/// it follows the items of that directory.
proof fn lemma_order_visit(
    tree: &DirTree,
    opened: Seq<usize>,
    all: Seq<usize>,
    out: Seq<Visit>,
    slot: Seq<int>,
    parent_at: Seq<int>,
    v: Visit,
)
    requires
        order_inv(tree, opened, all, out, slot, parent_at),
        opened.len() > 0,
        opened.last() == v.dir,
        forall|a: int|
            0 <= a < out.len() && #[trigger] slot[a] == opened.len() - 1 ==> out[a].pos < v.pos,
    ensures
        order_inv(tree, opened, all, out.push(v), slot.push(opened.len() - 1), parent_at),
{
    let out2 = out.push(v);
    let slot2 = slot.push(opened.len() - 1);
    assert forall|x: int| 1 <= x < all.len() implies 0 <= #[trigger] parent_at[x] < out2.len()
        && tree.links(out2[parent_at[x]].dir, out2[parent_at[x]].pos, all[x]) by {
        assert(out2[parent_at[x]] == out[parent_at[x]]);
    }
    assert forall|a: int| 0 <= a < out2.len() implies 0 <= #[trigger] slot2[a] < opened.len()
        && opened[slot2[a]] == out2[a].dir by {
        if a < out.len() {
            assert(slot2[a] == slot[a]);
        }
    }
    assert forall|a: int, b: int| 0 <= a < b < out2.len() implies #[trigger] slot2[a]
        <= #[trigger] slot2[b] && (slot2[a] == slot2[b] ==> out2[a].pos < out2[b].pos) by {
        assert(slot2[a] == slot[a]);
        if b < out.len() {
            assert(slot2[b] == slot[b]);
        }
    }
}

/// Opening one more directory keeps the order.
proof fn lemma_order_opened(
    tree: &DirTree,
    opened: Seq<usize>,
    all: Seq<usize>,
    out: Seq<Visit>,
    slot: Seq<int>,
    parent_at: Seq<int>,
    d: usize,
)
    requires
        order_inv(tree, opened, all, out, slot, parent_at),
    ensures
        order_inv(tree, opened.push(d), all, out, slot, parent_at),
        forall|a: int| 0 <= a < out.len() ==> #[trigger] slot[a] < opened.len(),
{
    assert forall|a: int| 0 <= a < out.len() implies 0 <= #[trigger] slot[a] < opened.push(d).len()
        && opened.push(d)[slot[a]] == out[a].dir by {
        assert(opened.push(d)[slot[a]] == opened[slot[a]]);
    }
}

/// A directory found through the item handed out last is the latest found.
proof fn lemma_order_found(
    tree: &DirTree,
    opened: Seq<usize>,
    all: Seq<usize>,
    out: Seq<Visit>,
    slot: Seq<int>,
    parent_at: Seq<int>,
    c: usize,
)
    requires
        order_inv(tree, opened, all, out, slot, parent_at),
        all.len() > 0,
        out.len() > 0,
        tree.links(out.last().dir, out.last().pos, c),
        forall|x: int| 1 <= x < all.len() ==> #[trigger] parent_at[x] < out.len() - 1,
    ensures
        order_inv(tree, opened, all.push(c), out, slot, parent_at.push(out.len() - 1)),
{
    let all2 = all.push(c);
    let parent2 = parent_at.push(out.len() - 1);
    assert forall|x: int| 1 <= x < all2.len() implies 0 <= #[trigger] parent2[x] < out.len()
        && tree.links(out[parent2[x]].dir, out[parent2[x]].pos, all2[x]) by {
        if x < all.len() {
            assert(parent2[x] == parent_at[x]);
            assert(all2[x] == all[x]);
        }
    }
    assert forall|x: int, y: int| 1 <= x < y < all2.len() implies #[trigger] parent2[x]
        < #[trigger] parent2[y] by {
        assert(parent2[x] == parent_at[x]);
        if y < all.len() {
            assert(parent2[y] == parent_at[y]);
        }
    }
}

/// When every known directory was opened, the items are in level order.
proof fn lemma_order_done(
    tree: &DirTree,
    opened: Seq<usize>,
    out: Seq<Visit>,
    slot: Seq<int>,
    parent_at: Seq<int>,
)
    requires
        order_inv(tree, opened, opened, out, slot, parent_at),
        opened.len() > 0 ==> opened[0] == 0,
        opened.no_duplicates(),
    ensures
        level_ordered(tree, out),
{
    assert forall|a: int, b: int| 0 <= a < b < out.len() implies if (#[trigger] out[a]).dir == (
    #[trigger] out[b]).dir {
        out[a].pos < out[b].pos
    } else {
        found_before(tree, out, out[a].dir, out[b].dir)
    } by {
        let x = slot[a];
        let y = slot[b];
        assert(x <= y);
        if out[a].dir != out[b].dir {
            assert(x < y);
            if x >= 1 {
                let k1 = parent_at[x];
                let k2 = parent_at[y];
                assert(tree.links(out[k1].dir, out[k1].pos, out[a].dir));
                assert(tree.links(out[k2].dir, out[k2].pos, out[b].dir));
            } else {
                assert(opened[x] == 0);
            }
        } else {
            // One directory is opened once only.
            assert(opened[x] == opened[y]);
            assert(x == y);
        }
    }
}

/// Walks `tree` from its root, answering the walker from the listings, and
/// returns what the consumer is handed, in order.
///
/// Every entry of every directory is handed out exactly once, files and
/// directories alike, and so is one error for every directory that cannot
/// be opened; nothing else is. The items come in level order.
pub fn walk_tree(tree: &DirTree) -> (out: Vec<Visit>)
    requires
        tree.wf(),
    ensures
        out@.no_duplicates(),
        forall|v: Visit| #[trigger] out@.contains(v) <==> tree.expects(v),
        level_ordered(tree, out@),
{
    let n = tree.dirs.len();
    let mut out: Vec<Visit> = Vec::new();
    let mut w = match walk(0usize) {
        Ok(walker) => walker.into_iter(),
        Err(_) => {
            return out;
        },
    };
    let mut cur: usize = 0;
    let mut pos: usize = 0;
    let ghost mut opened: Seq<usize> = Seq::empty();
    let ghost mut slot: Seq<int> = Seq::empty();
    let ghost mut parent_at: Seq<int> = seq![-1int];
    let mut action = answer(&mut w, WalkEvent::Next);
    proof {
        lemma_walk_start(tree, cur, pos);
        assert(w.pending() == Seq::<usize>::empty());
        assert(discovered(opened, action, w.pending()) == seq![0usize]);
    }
    loop
        invariant
            tree.wf(),
            n == tree.dirs@.len(),
            walk_inv(tree, w.cursor(), w.pending(), action, opened, cur, pos, out@),
            order_inv(tree, opened, discovered(opened, action, w.pending()), out@, slot, parent_at),
        ensures
            out@.no_duplicates(),
            forall|v: Visit| #[trigger] out@.contains(v) <==> tree.expects(v),
            level_ordered(tree, out@),
        decreases
            n - opened.len(),
            if action is Read {
                tree.count(cur as int) - pos + 1
            } else {
                0
            },
    {
        let ghost all = discovered(opened, action, w.pending());
        let ghost pending = w.pending();
        match action {
            WalkAction::Open(d) => {
                proof {
                    assert(all[opened.len() as int] == d);
                    lemma_distinct_bounded(all, n as nat);
                    lemma_order_opened(tree, opened, all, out@, slot, parent_at, d);
                }
                match &tree.dirs[d] {
                    Some(_) => {
                        proof {
                            lemma_walk_opened(tree, w.cursor(), pending, d, opened, cur, pos, out@);
                            opened = opened.push(d);
                        }
                        cur = d;
                        pos = 0;
                        action = answer(&mut w, WalkEvent::Opened);
                        assert(discovered(opened, action, w.pending()) == all);
                    },
                    None => {
                        let ghost v = Visit { dir: d, pos: 0, item: tree.item_at(d as int, 0) };
                        proof {
                            lemma_walk_open_failed(
                                tree,
                                w.cursor(),
                                pending,
                                d,
                                opened,
                                cur,
                                pos,
                                out@,
                            );
                            opened = opened.push(d);
                            lemma_order_visit(tree, opened, all, out@, slot, parent_at, v);
                            slot = slot.push(opened.len() - 1);
                        }
                        match answer(&mut w, WalkEvent::OpenFailed) {
                            WalkAction::Yield(item) => {
                                out.push(Visit { dir: d, pos: 0, item });
                            },
                            _ => {},
                        }
                        action = answer(&mut w, WalkEvent::Next);
                        assert(discovered(opened, action, w.pending()) == all);
                    },
                }
            },
            WalkAction::Read => {
                assert(all[opened.len() - 1] == cur);
                let event = match &tree.dirs[cur] {
                    Some(listing) => if pos < listing.len() {
                        match listing[pos] {
                            TreeEntry::File => WalkEvent::File,
                            TreeEntry::Dir(c) => WalkEvent::Directory(c),
                            TreeEntry::Broken => WalkEvent::EntryFailed,
                        }
                    } else {
                        WalkEvent::Exhausted
                    },
                    None => WalkEvent::Exhausted,
                };
                if let WalkEvent::Exhausted = &event {
                    proof {
                        lemma_walk_exhausted(tree, pending, opened, cur, pos, out@);
                    }
                    action = answer(&mut w, event);
                    assert(discovered(opened, action, w.pending()) == all);
                } else {
                    let ghost v = Visit { dir: cur, pos, item: tree.item_at(cur as int, pos as int) };
                    let ghost entry = tree.dirs@[cur as int]->Some_0@[pos as int];
                    proof {
                        lemma_walk_entry(tree, pending, opened, cur, pos, out@);
                        assert forall|a: int|
                            0 <= a < out@.len() && #[trigger] slot[a] == opened.len()
                                - 1 implies out@[a].pos < v.pos by {
                            assert(out@.contains(out@[a]));
                        }
                        lemma_order_visit(tree, opened, all, out@, slot, parent_at, v);
                        slot = slot.push(opened.len() - 1);
                        if entry is Dir {
                            lemma_order_found(
                                tree,
                                opened,
                                all,
                                out@.push(v),
                                slot,
                                parent_at,
                                entry->Dir_0,
                            );
                            parent_at = parent_at.push(out@.len() as int);
                        }
                    }
                    match answer(&mut w, event) {
                        WalkAction::Yield(item) => {
                            out.push(Visit { dir: cur, pos, item });
                        },
                        _ => {},
                    }
                    pos = pos + 1;
                    action = answer(&mut w, WalkEvent::Next);
                    assert(discovered(opened, action, w.pending()) == if entry is Dir {
                        all.push(entry->Dir_0)
                    } else {
                        all
                    });
                }
            },
            _ => {
                proof {
                    assert(w.pending() == Seq::<usize>::empty());
                    assert(all == opened);
                    lemma_walk_done(tree, opened, cur, pos, out@);
                    lemma_order_done(tree, opened, out@, slot, parent_at);
                }
                break ;
            },
        }
    }
    out
}

} // verus!
