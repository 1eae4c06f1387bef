//! The hashed backend: entries in insertion order with lookup by key scan
//! of the primary index, plus the auxiliary key list that drives fair
//! traversal. The key list mirrors the primary index slot for slot: a
//! replacing insert reuses the existing slot rather than appending a
//! duplicate key, and removal deletes the matching key, so the list always
//! holds exactly the live keys.

use vstd::prelude::*;
use std::sync::Arc;
use crate::id::PeerId;
use crate::peer::{Peer, PeerEntry};
use crate::store::{
    Slot, ids, distinct_ids, as_map, model_add, model_remove, model_lookup, count_connected,
    connected_keys, probe_result, lemma_as_map_contains, lemma_as_map_index, lemma_as_map_dom,
    lemma_as_map_update, lemma_as_map_push, lemma_as_map_remove, lemma_count_connected_matches,
    find_linear, count_connected_entries, collect_peers,
};

verus! {

/// A peer registry keeping its entries in insertion order in a keyed
/// primary index, with an auxiliary key list for fair traversal.
pub struct HashMapPeerManager {
    slots: Vec<Slot>,
    keys: Vec<PeerId>,
    counter: usize,
}

impl View for HashMapPeerManager {
    type V = Map<Seq<u8>, PeerEntry>;

    /// The abstract state: the finite map from peer ids to entries.
    closed spec fn view(&self) -> Map<Seq<u8>, PeerEntry> {
        as_map(self.slots@)
    }
}

impl HashMapPeerManager {
    /// The auxiliary key list, in insertion order; the order fair search
    /// probes.
    pub closed spec fn key_order(&self) -> Seq<Seq<u8>> {
        self.keys@.map_values(|p: PeerId| p@)
    }

    /// The stored keys in storage order of the primary index.
    pub closed spec fn entry_order(&self) -> Seq<Seq<u8>> {
        ids(self.slots@)
    }

    /// The slot at storage position `i`.
    pub closed spec fn slot_at(&self, i: int) -> Slot {
        self.slots@[i]
    }

    /// The fairness cursor: how often the probe counter has advanced.
    pub closed spec fn cursor(&self) -> nat {
        self.counter as nat
    }

    /// How many entries currently hold a connection context.
    pub closed spec fn connected_count(&self) -> nat {
        count_connected(self.slots@)
    }

    /// Well-formedness: keys are unique, and the key list mirrors the
    /// primary index slot for slot.
    pub closed spec fn wf(&self) -> bool {
        &&& distinct_ids(self.slots@)
        &&& self.keys@.len() == self.slots@.len()
        &&& forall|i: int| 0 <= i < self.slots@.len() ==> #[trigger] self.keys@[i] == self.slots@[i].id
    }

    /// Key-index consistency: the auxiliary key list holds exactly the
    /// live keys of the abstract state, each exactly once, and each slot
    /// holds the entry the abstract state associates with its key.
    pub proof fn lemma_key_index_consistent(&self)
        requires
            self.wf(),
        ensures
            self.key_order() == self.entry_order(),
            forall|i: int, j: int|
                0 <= i < j < self.key_order().len() ==> self.key_order()[i]
                    != self.key_order()[j],
            self.key_order().len() == self@.dom().len(),
            self@.dom().finite(),
            forall|i: int|
                0 <= i < self.key_order().len() ==> self@.dom().contains(
                    #[trigger] self.key_order()[i],
                ),
            forall|k: Seq<u8>|
                self@.dom().contains(k) ==> exists|i: int|
                    0 <= i < self.key_order().len() && #[trigger] self.key_order()[i] == k,
            forall|i: int|
                0 <= i < self.entry_order().len() ==> #[trigger] self.slot_at(i).id@
                    == self.entry_order()[i] && self.slot_at(i).entry == self@[self.entry_order()[i]],
    {
        assert(self.key_order() =~= self.entry_order());
        lemma_as_map_dom(self.slots@);
        assert forall|i: int| 0 <= i < self.entry_order().len() implies self@.dom().contains(
            #[trigger] self.entry_order()[i],
        ) && self.slot_at(i).id@ == self.entry_order()[i] && self.slot_at(i).entry
            == self@[self.entry_order()[i]] by {
            lemma_as_map_index(self.slots@, i);
        }
        assert forall|k: Seq<u8>| self@.dom().contains(k) implies exists|i: int|
            0 <= i < self.key_order().len() && #[trigger] self.key_order()[i] == k by {
            lemma_as_map_contains(self.slots@, k);
            let i = choose|i: int| 0 <= i < self.slots@.len() && self.slots@[i].id@ == k;
            assert(self.key_order()[i] == k);
        }
    }

    /// A fresh, empty registry.
    pub fn new() -> (r: HashMapPeerManager)
        ensures
            r.wf(),
            r@ == Map::<Seq<u8>, PeerEntry>::empty(),
            r.key_order() == Seq::<Seq<u8>>::empty(),
            r.cursor() == 0,
    {
        let r = HashMapPeerManager { slots: Vec::new(), keys: Vec::new(), counter: 0 };
        proof {
            assert(r.keys@.map_values(|p: PeerId| p@) =~= Seq::<Seq<u8>>::empty());
        }
        r
    }

    /// True exactly when no entries exist.
    pub fn is_empty(&self) -> (r: bool)
        requires
            self.wf(),
        ensures
            r <==> self@.dom().len() == 0,
            r <==> self.key_order().len() == 0,
            r ==> self@ =~= Map::<Seq<u8>, PeerEntry>::empty(),
    {
        proof {
            lemma_as_map_dom(self.slots@);
        }
        self.slots.len() == 0
    }

    /// Looks up the entry registered under `id`, if any.
    pub fn get(&self, id: &PeerId) -> (r: Option<&PeerEntry>)
        requires
            self.wf(),
        ensures
            match r {
                Some(e) => model_lookup(self@, id@) == Some(*e),
                None => model_lookup(self@, id@) is None,
            },
    {
        match find_linear(&self.slots, id) {
            Some(i) => {
                proof {
                    lemma_as_map_index(self.slots@, i as int);
                }
                Some(&self.slots[i].entry)
            },
            None => {
                proof {
                    lemma_as_map_contains(self.slots@, id@);
                }
                None
            },
        }
    }

    /// Looks up the entry registered under `id` for in-place mutation; the
    /// caller may set or clear its connection context through the returned
    /// reference, and the abstract state holds whatever is finally written.
    pub fn get_mut(&mut self, id: &PeerId) -> (r: Option<&mut PeerEntry>)
        requires
            old(self).wf(),
        ensures
            final(self).wf(),
            final(self).cursor() == old(self).cursor(),
            final(self).key_order() == old(self).key_order(),
            match r {
                Some(e) => model_lookup(old(self)@, id@) == Some(*e) && final(self)@ == old(
                    self,
                )@.insert(id@, *final(e)),
                None => model_lookup(old(self)@, id@) is None && *final(self) == *old(self),
            },
    {
        match find_linear(&self.slots, id) {
            Some(i) => {
                proof {
                    lemma_as_map_index(self.slots@, i as int);
                    let ghost s = self.slots@;
                    assert forall|en: PeerEntry|
                        as_map(
                            #[trigger] s.update(i as int, (Slot { id: s[i as int].id, entry: en })),
                        ) == as_map(s).insert(id@, en) && distinct_ids(
                            s.update(i as int, (Slot { id: s[i as int].id, entry: en })),
                        ) && s.update(i as int, (Slot { id: s[i as int].id, entry: en }))[i as int].id
                            == s[i as int].id by {
                        lemma_as_map_update(s, i as int, Slot { id: s[i as int].id, entry: en });
                    }
                }
                Some(&mut self.slots[i].entry)
            },
            None => {
                proof {
                    lemma_as_map_contains(self.slots@, id@);
                }
                None
            },
        }
    }

    /// Inserts the peer under its own id, or replaces the entry already
    /// registered there without duplicating its key in the key list;
    /// either way the new entry starts with no connection context, and any
    /// prior context for that key is discarded. A fresh key is appended to
    /// the traversal order.
    pub fn add(&mut self, peer: Arc<Peer>)
        requires
            old(self).wf(),
        ensures
            final(self).wf(),
            final(self)@ == model_add(old(self)@, peer),
            final(self).cursor() == old(self).cursor(),
            old(self)@.dom().contains((*peer).key()) ==> final(self).key_order() == old(
                self,
            ).key_order(),
            !old(self)@.dom().contains((*peer).key()) ==> final(self).key_order() == old(
                self,
            ).key_order().push((*peer).key()),
    {
        let pid: PeerId = *peer.id();
        proof {
            lemma_as_map_contains(self.slots@, pid@);
        }
        match find_linear(&self.slots, &pid) {
            Some(i) => {
                let entry = PeerEntry { peer, context: None };
                proof {
                    let ghost gentry = entry;
                    let ghost s = self.slots@;
                    lemma_as_map_index(s, i as int);
                    assert(s[i as int].id@ == pid@);
                    lemma_as_map_update(s, i as int, Slot { id: s[i as int].id, entry: gentry });
                }
                let entry_ref = &mut self.slots[i].entry;
                *entry_ref = entry;
            },
            None => {
                let sl = Slot { id: pid, entry: PeerEntry { peer, context: None } };
                proof {
                    let ghost gsl = sl;
                    lemma_as_map_push(self.slots@, gsl);
                    let ghost t = self.slots@.push(gsl);
                    assert forall|a: int, b: int| 0 <= a < b < t.len() implies t[a].id@
                        != t[b].id@ by {
                        if b < t.len() - 1 {
                            assert(t[a] == self.slots@[a]);
                            assert(t[b] == self.slots@[b]);
                        } else {
                            assert(t[a] == self.slots@[a]);
                        }
                    }
                }
                self.slots.push(sl);
                self.keys.push(pid);
                proof {
                    assert(final(self).key_order() =~= old(self).key_order().push(pid@));
                }
            },
        }
    }

    /// Removes and returns the entry registered under `id`, deleting its
    /// key from the traversal order; absent ids are a no-op that returns
    /// nothing.
    pub fn remove(&mut self, id: &PeerId) -> (r: Option<PeerEntry>)
        requires
            old(self).wf(),
        ensures
            final(self).wf(),
            final(self)@ == model_remove(old(self)@, id@),
            final(self).cursor() == old(self).cursor(),
            match r {
                Some(e) => model_lookup(old(self)@, id@) == Some(e),
                None => model_lookup(old(self)@, id@) is None && *final(self) == *old(self),
            },
    {
        match find_linear(&self.slots, id) {
            Some(i) => {
                proof {
                    lemma_as_map_index(self.slots@, i as int);
                    lemma_as_map_remove(self.slots@, i as int);
                }
                let sl = self.slots.remove(i);
                self.keys.remove(i);
                proof {
                    assert forall|j: int| 0 <= j < self.slots@.len() implies #[trigger] self.keys@[j]
                        == self.slots@[j].id by {
                        if j < i {
                            assert(self.keys@[j] == old(self).keys@[j]);
                            assert(self.slots@[j] == old(self).slots@[j]);
                        } else {
                            assert(self.keys@[j] == old(self).keys@[j + 1]);
                            assert(self.slots@[j] == old(self).slots@[j + 1]);
                        }
                    }
                }
                Some(sl.entry)
            },
            None => {
                proof {
                    lemma_as_map_contains(self.slots@, id@);
                    assert(model_remove(self@, id@) =~= self@);
                }
                None
            },
        }
    }

    /// Calls `f` once per stored (id, peer) pair under one logical
    /// operation; no iteration order is part of the contract.
    pub fn for_each<F: Fn(&PeerId, &Peer)>(&self, f: F)
        requires
            self.wf(),
            forall|id: &PeerId, p: &Peer| call_requires(f, (id, p)),
        ensures
            forall|i: int|
                0 <= i < self.entry_order().len() ==> call_ensures(
                    f,
                    (&self.slot_at(i).id, &*self.slot_at(i).entry.peer),
                    (),
                ),
    {
        let n = self.slots.len();
        let mut i: usize = 0;
        while i < n
            invariant
                0 <= i <= n,
                n == self.slots@.len(),
                forall|id: &PeerId, p: &Peer| call_requires(f, (id, p)),
                forall|j: int|
                    0 <= j < i ==> call_ensures(
                        f,
                        (&self.slot_at(j).id, &*self.slot_at(j).entry.peer),
                        (),
                    ),
            decreases n - i,
        {
            f(&self.slots[i].id, &*self.slots[i].entry.peer);
            i = i + 1;
        }
    }

    /// Selects one peer satisfying `f`, resuming from the fairness cursor
    /// so that successive calls begin their scan at successive positions
    /// of the key list. Within one call each entry is probed at most once;
    /// while the cursor arithmetic does not wrap, a call that returns
    /// nothing has probed every entry and seen the predicate answer false
    /// on each.
    pub fn fair_find<F: Fn(&Peer) -> bool>(&mut self, f: F) -> (r: Option<PeerId>)
        requires
            old(self).wf(),
            forall|p: &Peer| call_requires(f, (p,)),
        ensures
            final(self).wf(),
            final(self)@ == old(self)@,
            final(self).key_order() == old(self).key_order(),
            old(self).cursor() + old(self).key_order().len() <= usize::MAX as nat ==> old(self).cursor()
                <= final(self).cursor() <= old(self).cursor() + old(self).key_order().len(),
            match r {
                Some(id) => old(self)@.dom().contains(id@) && probe_result(
                    f,
                    old(self)@[id@],
                    true,
                ),
                None => old(self).cursor() + old(self).key_order().len() <= usize::MAX as nat
                    ==> forall|k: Seq<u8>|
                    old(self)@.dom().contains(k) ==> probe_result(f, old(self)@[k], false),
            },
    {
        let n = self.keys.len();
        if n == 0 {
            return None;
        }
        let ghost c0 = self.counter as int;
        let mut t: usize = 0;
        while t < n
            invariant
                0 < n,
                n == self.keys@.len(),
                self.slots@ == old(self).slots@,
                self.keys@ == old(self).keys@,
                old(self).wf(),
                c0 == old(self).counter as int,
                forall|p: &Peer| call_requires(f, (p,)),
                0 <= t <= n,
                c0 + n <= usize::MAX as int ==> self.counter as int == c0 + t,
                c0 + n <= usize::MAX as int ==> forall|u: int|
                    0 <= u < t ==> probe_result(
                        f,
                        self.slots@[#[trigger] ((c0 + u) % (n as int))].entry,
                        false,
                    ),
            decreases n - t,
        {
            let c = self.counter;
            self.counter = if c == usize::MAX {
                0
            } else {
                c + 1
            };
            let idx = c % n;
            proof {
                vstd::arithmetic::div_mod::lemma_mod_division_less_than_divisor(
                    c as int,
                    n as int,
                );
            }
            let pid = self.keys[idx];
            let matched = f(&*self.slots[idx].entry.peer);
            if matched {
                proof {
                    lemma_as_map_index(self.slots@, idx as int);
                    assert(pid@ == self.slots@[idx as int].id@);
                }
                return Some(pid);
            }
            t = t + 1;
        }
        proof {
            if c0 + n <= usize::MAX as int {
                assert forall|k: Seq<u8>| old(self)@.dom().contains(k) implies probe_result(
                    f,
                    old(self)@[k],
                    false,
                ) by {
                    lemma_as_map_contains(self.slots@, k);
                    let i = choose|i: int| 0 <= i < self.slots@.len() && self.slots@[i].id@ == k;
                    lemma_as_map_index(self.slots@, i);
                    crate::store::lemma_probes_cover(c0, n as int, i);
                    let u = choose|u: int| 0 <= u < n && #[trigger] ((c0 + u) % (n as int)) == i;
                    assert(probe_result(f, self.slots@[(c0 + u) % (n as int)].entry, false));
                }
            }
        }
        None
    }

    /// A snapshot of every registered peer handle, in storage order; the
    /// order is not part of the contract.
    pub fn get_all(&self) -> (r: Vec<Arc<Peer>>)
        requires
            self.wf(),
        ensures
            r@.len() == self.entry_order().len(),
            forall|i: int|
                0 <= i < r@.len() ==> r@[i] == self@[#[trigger] self.entry_order()[i]].peer,
    {
        proof {
            self.lemma_key_index_consistent();
        }
        let r = collect_peers(&self.slots);
        proof {
            assert forall|i: int| 0 <= i < r@.len() implies r@[i] == self@[
                #[trigger] self.entry_order()[i]
            ].peer by {
                assert(self.slot_at(i).entry == self@[self.entry_order()[i]]);
                assert(r@[i] == self.slots@[i].entry.peer);
            }
        }
        r
    }

    /// True exactly when an entry for `id` exists and is connected.
    pub fn is_connected(&self, id: &PeerId) -> (r: bool)
        requires
            self.wf(),
        ensures
            r == (self@.dom().contains(id@) && self@[id@].context is Some),
    {
        match self.get(id) {
            Some(e) => e.context.is_some(),
            None => false,
        }
    }

    /// The number of connected entries, saturating at the historical
    /// 8-bit representation limit of 255.
    pub fn connected_peers(&self) -> (r: u8)
        requires
            self.wf(),
        ensures
            r as nat == if self.connected_count() > 255 {
                255nat
            } else {
                self.connected_count()
            },
    {
        count_connected_entries(&self.slots)
    }

    /// Connection accounting: the connected count is exactly the number of
    /// ids for which `is_connected` holds.
    pub proof fn lemma_connection_accounting(&self)
        requires
            self.wf(),
        ensures
            connected_keys(self@).finite(),
            self.connected_count() == connected_keys(self@).len(),
    {
        lemma_count_connected_matches(self.slots@);
    }
}

} // verus!
