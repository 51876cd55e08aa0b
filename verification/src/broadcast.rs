//! The set of live dashboard observers.
//!
//! The broadcaster knows its observers by the identifiers it gave them; the
//! channels themselves stay with the driver, which sends and reports back
//! which sends failed.

use vstd::prelude::*;

verus! {

/// Time units between two liveness sweeps.
pub const SWEEP_INTERVAL: u64 = 10;

/// The data of the first event on a new observer's channel.
pub const CONNECTED_MARKER: &'static str = "connected";

/// The comment that a sweep sends to every live observer.
pub const PING_COMMENT: &'static str = "ping";

/// The identifier of one observer.
pub type ClientId = u64;

/// The live observers, in the order in which they registered.
pub struct Broadcaster {
    clients: Vec<ClientId>,
    next_id: ClientId,
}

/// Whether `ids` holds `id`.
fn holds(ids: &Vec<ClientId>, id: ClientId) -> (b: bool)
    ensures
        b == ids@.contains(id),
{
    let mut i: usize = 0;
    while i < ids.len()
        invariant
            i <= ids@.len(),
            forall|k: int| 0 <= k < i ==> ids@[k] != id,
        decreases ids@.len() - i,
    {
        if ids[i] == id {
            return true;
        }
        i += 1;
    }
    false
}

/// The observers of `live` that are not among `failed`, in the same order.
pub open spec fn without(live: Seq<ClientId>, failed: Seq<ClientId>) -> Seq<ClientId>
    decreases live.len(),
{
    if live.len() == 0 {
        Seq::empty()
    } else if failed.contains(live.last()) {
        without(live.drop_last(), failed)
    } else {
        without(live.drop_last(), failed).push(live.last())
    }
}

/// What is left after a sweep: exactly the observers that did not fail,
/// each still once.
pub proof fn lemma_without(live: Seq<ClientId>, failed: Seq<ClientId>)
    ensures
        forall|c: ClientId| #[trigger]
            without(live, failed).contains(c) <==> live.contains(c) && !failed.contains(c),
        live.no_duplicates() ==> without(live, failed).no_duplicates(),
        without(live, failed).len() <= live.len(),
    decreases live.len(),
{
    if live.len() > 0 {
        let init = live.drop_last();
        let kept = without(init, failed);
        lemma_without(init, failed);
        assert forall|c: ClientId| live.contains(c) <==> init.contains(c) || c
            == live.last() by {
            if live.contains(c) {
                let k = choose|k: int| 0 <= k < live.len() && live[k] == c;
                if k < init.len() {
                    assert(init[k] == c);
                }
            }
            if init.contains(c) {
                let k = choose|k: int| 0 <= k < init.len() && init[k] == c;
                assert(live[k] == c);
            }
            if c == live.last() {
                assert(live[live.len() - 1] == c);
            }
        }
        if !failed.contains(live.last()) {
            assert forall|c: ClientId| #[trigger]
                kept.push(live.last()).contains(c) <==> kept.contains(c) || c == live.last() by {
                if kept.push(live.last()).contains(c) {
                    let k = choose|k: int|
                        0 <= k < kept.push(live.last()).len() && kept.push(live.last())[k] == c;
                    if k < kept.len() {
                        assert(kept[k] == c);
                    }
                }
                if kept.contains(c) {
                    let k = choose|k: int| 0 <= k < kept.len() && kept[k] == c;
                    assert(kept.push(live.last())[k] == c);
                }
                if c == live.last() {
                    assert(kept.push(live.last())[kept.len() as int] == c);
                }
            }
            if live.no_duplicates() {
                assert(init.no_duplicates());
                assert(!init.contains(live.last())) by {
                    if init.contains(live.last()) {
                        let k = choose|k: int| 0 <= k < init.len() && init[k] == live.last();
                        assert(live[k] == live[live.len() - 1]);
                    }
                }
                assert(!kept.contains(live.last()));
                assert forall|a: int, b: int|
                    0 <= a < kept.len() + 1 && 0 <= b < kept.len() + 1 && a
                        != b implies kept.push(live.last())[a] != kept.push(live.last())[b] by {
                    if a < kept.len() && b < kept.len() {
                    } else if a < kept.len() {
                        assert(kept.contains(kept[a]));
                    } else {
                        assert(kept.contains(kept[b]));
                    }
                }
            }
        } else {
            if live.no_duplicates() {
                assert(init.no_duplicates());
            }
        }
    }
}

impl Broadcaster {
    /// The live observers, in the order in which they registered.
    pub closed spec fn live(&self) -> Seq<ClientId> {
        self.clients@
    }

    /// No observer is live twice, and no identifier that is still to be
    /// given out is live.
    pub closed spec fn wf(&self) -> bool {
        &&& self.clients@.no_duplicates()
        &&& forall|k: int| 0 <= k < self.clients@.len() ==> #[trigger] self.clients@[k] < self.next_id
    }

    /// How many identifiers were given out so far.
    pub closed spec fn issued(&self) -> nat {
        self.next_id as nat
    }

    /// Whether another observer can register: identifiers are left.
    pub open spec fn has_room(&self) -> bool {
        self.issued() < u64::MAX
    }

    /// A broadcaster without observers.
    pub fn create() -> (b: Broadcaster)
        ensures
            b.wf(),
            b.live() == Seq::<ClientId>::empty(),
            b.issued() == 0,
    {
        Broadcaster { clients: Vec::new(), next_id: 0 }
    }

    /// How many observers are live.
    pub fn len(&self) -> (n: usize)
        ensures
            n == self.live().len(),
    {
        self.clients.len()
    }

    /// Registers a new observer and returns its identifier, which no
    /// observer had before. The driver opens the channel and sends the
    /// connected marker. `None`, and no change, once identifiers have run out.
    pub fn new_client(&mut self) -> (id: Option<ClientId>)
        requires
            old(self).wf(),
        ensures
            final(self).wf(),
            match id {
                Some(c) => {
                    &&& old(self).has_room()
                    &&& c == old(self).issued()
                    &&& !old(self).live().contains(c)
                    &&& final(self).live() == old(self).live().push(c)
                    &&& final(self).issued() == old(self).issued() + 1
                },
                None => {
                    &&& !old(self).has_room()
                    &&& final(self).live() == old(self).live()
                    &&& final(self).issued() == old(self).issued()
                },
            },
    {
        if self.next_id == u64::MAX {
            return None;
        }
        let id = self.next_id;
        let ghost before = self.clients@;
        assert(!before.contains(id)) by {
            if before.contains(id) {
                let k = choose|k: int| 0 <= k < before.len() && before[k] == id;
                assert(before[k] < self.next_id);
            }
        }
        self.clients.push(id);
        self.next_id = id + 1;
        assert(self.clients@.no_duplicates()) by {
            assert forall|a: int, b: int|
                0 <= a < self.clients@.len() && 0 <= b < self.clients@.len() && a
                    != b implies self.clients@[a] != self.clients@[b] by {
                if a < before.len() && b < before.len() {
                } else if a < before.len() {
                    assert(before.contains(before[a]));
                } else {
                    assert(before.contains(before[b]));
                }
            }
        }
        assert forall|k: int| 0 <= k < self.clients@.len() implies #[trigger] self.clients@[k]
            < self.next_id by {
            if k < before.len() {
                assert(before[k] < id);
            }
        }
        Some(id)
    }

    /// The observers a message goes to: every live one, in order. Whether a
    /// send fails makes no difference here; only a sweep removes observers.
    pub fn broadcast(&self) -> (recipients: Vec<ClientId>)
        ensures
            recipients@ == self.live(),
    {
        self.clients.clone()
    }

    /// Ends a sweep: the observers whose ping failed leave the live set.
    /// Every other observer stays, those that registered during the sweep
    /// included.
    pub fn remove_stale_clients(&mut self, failed: &Vec<ClientId>)
        requires
            old(self).wf(),
        ensures
            final(self).wf(),
            final(self).live() == without(old(self).live(), failed@),
            final(self).issued() == old(self).issued(),
    {
        let ghost before = self.clients@;
        let mut ok_clients: Vec<ClientId> = Vec::new();
        let mut i: usize = 0;
        while i < self.clients.len()
            invariant
                i <= self.clients@.len(),
                self.clients@ == before,
                ok_clients@ == without(before.take(i as int), failed@),
            decreases self.clients@.len() - i,
        {
            assert(before.take(i + 1).drop_last() == before.take(i as int));
            if !holds(failed, self.clients[i]) {
                ok_clients.push(self.clients[i]);
            }
            i += 1;
        }
        proof {
            assert(before.take(i as int) == before);
            lemma_without(before, failed@);
            assert forall|k: int| 0 <= k < ok_clients@.len() implies #[trigger] ok_clients@[k]
                < self.next_id by {
                assert(ok_clients@.contains(ok_clients@[k]));
                let j = choose|j: int| 0 <= j < before.len() && before[j] == ok_clients@[k];
                assert(before[j] < self.next_id);
            }
        }
        self.clients = ok_clients;
    }
}

} // verus!
