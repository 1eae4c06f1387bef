//! The ordered-map backend: the primary index keeps its entries sorted by
//! key, so lookup, insertion and removal go by binary search and iteration
//! is sorted for free; fair traversal still follows the auxiliary key list
//! in insertion order, consistently with the hashed backend.

use vstd::prelude::*;
use std::sync::Arc;
use crate::id::PeerId;
use crate::peer::{Peer, PeerEntry};
use crate::store::{
    Slot, ids, distinct_ids, sorted_ids, as_map, model_add, model_remove, model_lookup,
    count_connected, connected_keys, probe_result, lemma_sorted_implies_distinct,
    lemma_slot_ids_len, lemma_as_map_contains, lemma_as_map_index, lemma_as_map_dom,
    lemma_as_map_update, lemma_as_map_insert_at, lemma_as_map_remove,
    lemma_count_connected_matches, find_sorted, find_key, count_connected_entries, collect_peers,
};

verus! {

/// Some slot of `s` carries the key `k`.
spec fn has_id(s: Seq<Slot>, k: Seq<u8>) -> bool {
    exists|j: int| 0 <= j < s.len() && (#[trigger] s[j]).id@ == k
}

/// Some key of the key list `ks` reads `k`.
spec fn has_key(ks: Seq<PeerId>, k: Seq<u8>) -> bool {
    exists|i: int| 0 <= i < ks.len() && (#[trigger] ks[i])@ == k
}

/// The key list holds exactly the keys of the slot sequence, each exactly
/// once, in whatever order.
spec fn keys_match(s: Seq<Slot>, ks: Seq<PeerId>) -> bool {
    &&& ks.len() == s.len()
    &&& forall|i: int, j: int| 0 <= i < j < ks.len() ==> ks[i]@ != ks[j]@
    &&& forall|i: int| 0 <= i < ks.len() ==> has_id(s, (#[trigger] ks[i])@)
    &&& forall|j: int| 0 <= j < s.len() ==> has_key(ks, (#[trigger] s[j]).id@)
}

/// Replacing a slot's entry in place leaves the key correspondence intact.
proof fn lemma_keys_match_update(s: Seq<Slot>, ks: Seq<PeerId>, i: int, en: PeerEntry)
    requires
        keys_match(s, ks),
        0 <= i < s.len(),
    ensures
        keys_match(s.update(i, (Slot { id: s[i].id, entry: en })), ks),
{
    let t = s.update(i, (Slot { id: s[i].id, entry: en }));
    assert forall|a: int| 0 <= a < ks.len() implies has_id(t, (#[trigger] ks[a])@) by {
        let j = choose|j: int| 0 <= j < s.len() && (#[trigger] s[j]).id@ == ks[a]@;
        assert(t[j].id@ == ks[a]@);
    }
    assert forall|j: int| 0 <= j < t.len() implies has_key(ks, (#[trigger] t[j]).id@) by {
        assert(t[j].id@ == s[j].id@);
    }
}

/// Inserting a slot with a fresh key and appending that key to the key
/// list keeps the correspondence.
proof fn lemma_keys_match_push(s: Seq<Slot>, ks: Seq<PeerId>, i: int, sl: Slot)
    requires
        keys_match(s, ks),
        0 <= i <= s.len(),
        forall|j: int| 0 <= j < s.len() ==> (#[trigger] s[j]).id@ != sl.id@,
    ensures
        keys_match(s.insert(i, sl), ks.push(sl.id)),
{
    let t = s.insert(i, sl);
    let kt = ks.push(sl.id);
    assert forall|a: int| 0 <= a < ks.len() implies (#[trigger] ks[a])@ != sl.id@ by {
        let j = choose|j: int| 0 <= j < s.len() && (#[trigger] s[j]).id@ == ks[a]@;
        assert(s[j].id@ != sl.id@);
    }
    assert forall|a: int, b: int| 0 <= a < b < kt.len() implies kt[a]@ != kt[b]@ by {
        if b < ks.len() {
            assert(kt[a]@ == ks[a]@ && kt[b]@ == ks[b]@);
        } else {
            assert(kt[a]@ == ks[a]@ && kt[b]@ == sl.id@);
        }
    }
    assert forall|a: int| 0 <= a < kt.len() implies has_id(t, (#[trigger] kt[a])@) by {
        if a < ks.len() {
            let j = choose|j: int| 0 <= j < s.len() && (#[trigger] s[j]).id@ == ks[a]@;
            let tj = if j < i {
                j
            } else {
                j + 1
            };
            assert(t[tj].id@ == kt[a]@);
        } else {
            assert(t[i].id@ == kt[a]@);
        }
    }
    assert forall|j: int| 0 <= j < t.len() implies has_key(kt, (#[trigger] t[j]).id@) by {
        if j == i {
            assert(kt[ks.len() as int]@ == t[j].id@);
        } else {
            let sj = if j < i {
                j
            } else {
                j - 1
            };
            let a = choose|a: int| 0 <= a < ks.len() && (#[trigger] ks[a])@ == s[sj].id@;
            assert(kt[a]@ == t[j].id@);
        }
    }
}

/// Removing a slot and its key from the key list keeps the
/// correspondence.
proof fn lemma_keys_match_remove(s: Seq<Slot>, ks: Seq<PeerId>, i: int, kj: int)
    requires
        keys_match(s, ks),
        distinct_ids(s),
        0 <= i < s.len(),
        0 <= kj < ks.len(),
        s[i].id@ == ks[kj]@,
    ensures
        keys_match(s.remove(i), ks.remove(kj)),
{
    let t = s.remove(i);
    let kt = ks.remove(kj);
    assert forall|a: int, b: int| 0 <= a < b < kt.len() implies kt[a]@ != kt[b]@ by {
        let sa = if a < kj {
            a
        } else {
            a + 1
        };
        let sb = if b < kj {
            b
        } else {
            b + 1
        };
        assert(kt[a]@ == ks[sa]@);
        assert(kt[b]@ == ks[sb]@);
    }
    assert forall|a: int| 0 <= a < kt.len() implies has_id(t, (#[trigger] kt[a])@) by {
        let sa = if a < kj {
            a
        } else {
            a + 1
        };
        assert(kt[a]@ == ks[sa]@);
        assert(ks[sa]@ != ks[kj]@);
        let j = choose|j: int| 0 <= j < s.len() && (#[trigger] s[j]).id@ == ks[sa]@;
        assert(s[j].id@ != s[i].id@);
        assert(j != i);
        let tj = if j < i {
            j
        } else {
            j - 1
        };
        assert(t[tj].id@ == kt[a]@);
    }
    assert forall|j: int| 0 <= j < t.len() implies has_key(kt, (#[trigger] t[j]).id@) by {
        let sj = if j < i {
            j
        } else {
            j + 1
        };
        assert(t[j].id@ == s[sj].id@);
        assert(sj != i);
        assert(s[sj].id@ != s[i].id@);
        let a = choose|a: int| 0 <= a < ks.len() && (#[trigger] ks[a])@ == s[sj].id@;
        assert(ks[a]@ != ks[kj]@);
        assert(a != kj);
        let ta = if a < kj {
            a
        } else {
            a - 1
        };
        assert(kt[ta]@ == t[j].id@);
    }
}

/// A peer registry whose primary index is kept sorted by key, paired with
/// an insertion-ordered key list for fair traversal.
pub struct BTreeMapPeerManager {
    slots: Vec<Slot>,
    keys: Vec<PeerId>,
    counter: usize,
}

impl View for BTreeMapPeerManager {
    type V = Map<Seq<u8>, PeerEntry>;

    /// The abstract state: the finite map from peer ids to entries.
    closed spec fn view(&self) -> Map<Seq<u8>, PeerEntry> {
        as_map(self.slots@)
    }
}

impl BTreeMapPeerManager {
    /// The auxiliary key list, in insertion order; the order fair search
    /// probes.
    pub closed spec fn key_order(&self) -> Seq<Seq<u8>> {
        self.keys@.map_values(|p: PeerId| p@)
    }

    /// The stored keys in storage order of the primary index (ascending
    /// lexicographic order for this backend).
    pub closed spec fn entry_order(&self) -> Seq<Seq<u8>> {
        ids(self.slots@)
    }

    /// The slot at storage position `i` of the primary index.
    pub closed spec fn slot_at(&self, i: int) -> Slot {
        self.slots@[i]
    }

    /// The fairness cursor: how often the probe counter has advanced.
    pub closed spec fn cursor(&self) -> nat {
        self.counter as nat
    }

    /// How many entries currently hold a connection context.
    pub closed spec fn connected_count(&self) -> nat {
        count_connected(self.slots@)
    }

    /// Well-formedness: the primary index is strictly sorted, and the key
    /// list holds exactly its keys, each exactly once.
    pub closed spec fn wf(&self) -> bool {
        sorted_ids(self.slots@) && keys_match(self.slots@, self.keys@)
    }

    proof fn lemma_wf_distinct(&self)
        requires
            self.wf(),
        ensures
            distinct_ids(self.slots@),
    {
        lemma_slot_ids_len(self.slots@);
        lemma_sorted_implies_distinct(self.slots@);
    }

    /// Key-index consistency: the auxiliary key list holds exactly the
    /// live keys of the abstract state, each exactly once, and each slot
    /// of the primary index holds the entry the abstract state associates
    /// with its key.
    pub proof fn lemma_key_index_consistent(&self)
        requires
            self.wf(),
        ensures
            forall|i: int, j: int|
                0 <= i < j < self.key_order().len() ==> self.key_order()[i]
                    != self.key_order()[j],
            self.key_order().len() == self@.dom().len(),
            self@.dom().finite(),
            forall|i: int|
                0 <= i < self.key_order().len() ==> self@.dom().contains(
                    #[trigger] self.key_order()[i],
                ),
            forall|k: Seq<u8>|
                self@.dom().contains(k) ==> exists|i: int|
                    0 <= i < self.key_order().len() && #[trigger] self.key_order()[i] == k,
            forall|i: int|
                0 <= i < self.entry_order().len() ==> #[trigger] self.slot_at(i).id@
                    == self.entry_order()[i] && self.slot_at(i).entry == self@[self.entry_order()[i]],
    {
        self.lemma_wf_distinct();
        lemma_as_map_dom(self.slots@);
        assert forall|i: int| 0 <= i < self.key_order().len() implies self@.dom().contains(
            #[trigger] self.key_order()[i],
        ) by {
            let j = choose|j: int|
                0 <= j < self.slots@.len() && self.slots@[j].id@ == self.keys@[i]@;
            lemma_as_map_index(self.slots@, j);
        }
        assert forall|k: Seq<u8>| self@.dom().contains(k) implies exists|i: int|
            0 <= i < self.key_order().len() && #[trigger] self.key_order()[i] == k by {
            lemma_as_map_contains(self.slots@, k);
            let j = choose|j: int| 0 <= j < self.slots@.len() && self.slots@[j].id@ == k;
            let i = choose|i: int|
                0 <= i < self.keys@.len() && self.keys@[i]@ == self.slots@[j].id@;
            assert(self.key_order()[i] == k);
        }
        assert forall|i: int| 0 <= i < self.entry_order().len() implies #[trigger] self.slot_at(
            i,
        ).id@ == self.entry_order()[i] && self.slot_at(i).entry
            == self@[self.entry_order()[i]] by {
            lemma_as_map_index(self.slots@, i);
        }
    }

    /// A fresh, empty registry.
    pub fn new() -> (r: BTreeMapPeerManager)
        ensures
            r.wf(),
            r@ == Map::<Seq<u8>, PeerEntry>::empty(),
            r.key_order() == Seq::<Seq<u8>>::empty(),
            r.cursor() == 0,
    {
        let r = BTreeMapPeerManager { slots: Vec::new(), keys: Vec::new(), counter: 0 };
        proof {
            assert(r.keys@.map_values(|p: PeerId| p@) =~= Seq::<Seq<u8>>::empty());
        }
        r
    }

    /// True exactly when no entries exist.
    pub fn is_empty(&self) -> (r: bool)
        requires
            self.wf(),
        ensures
            r <==> self@.dom().len() == 0,
            r <==> self.key_order().len() == 0,
            r ==> self@ =~= Map::<Seq<u8>, PeerEntry>::empty(),
    {
        proof {
            self.lemma_wf_distinct();
            lemma_as_map_dom(self.slots@);
        }
        self.slots.len() == 0
    }

    /// Looks up the entry registered under `id`, if any.
    pub fn get(&self, id: &PeerId) -> (r: Option<&PeerEntry>)
        requires
            self.wf(),
        ensures
            match r {
                Some(e) => model_lookup(self@, id@) == Some(*e),
                None => model_lookup(self@, id@) is None,
            },
    {
        proof {
            self.lemma_wf_distinct();
            lemma_slot_ids_len(self.slots@);
            id.lemma_len();
        }
        match find_sorted(&self.slots, id) {
            Ok(i) => {
                proof {
                    lemma_as_map_index(self.slots@, i as int);
                }
                Some(&self.slots[i].entry)
            },
            Err(_) => {
                proof {
                    lemma_as_map_contains(self.slots@, id@);
                }
                None
            },
        }
    }

    /// Looks up the entry registered under `id` for in-place mutation; the
    /// caller may set or clear its connection context through the returned
    /// reference, and the abstract state holds whatever is finally written.
    #[verifier::rlimit(80)]
    pub fn get_mut(&mut self, id: &PeerId) -> (r: Option<&mut PeerEntry>)
        requires
            old(self).wf(),
        ensures
            final(self).wf(),
            final(self).cursor() == old(self).cursor(),
            final(self).key_order() == old(self).key_order(),
            match r {
                Some(e) => model_lookup(old(self)@, id@) == Some(*e) && final(self)@ == old(
                    self,
                )@.insert(id@, *final(e)),
                None => model_lookup(old(self)@, id@) is None && *final(self) == *old(self),
            },
    {
        proof {
            self.lemma_wf_distinct();
            lemma_slot_ids_len(self.slots@);
            id.lemma_len();
        }
        match find_sorted(&self.slots, id) {
            Ok(i) => {
                proof {
                    lemma_as_map_index(self.slots@, i as int);
                    let ghost s = self.slots@;
                    let ghost ks = self.keys@;
                    assert forall|en: PeerEntry|
                        as_map(
                            #[trigger] s.update(i as int, (Slot { id: s[i as int].id, entry: en })),
                        ) == as_map(s).insert(id@, en) && sorted_ids(
                            s.update(i as int, (Slot { id: s[i as int].id, entry: en })),
                        ) && keys_match(
                            s.update(i as int, (Slot { id: s[i as int].id, entry: en })),
                            ks,
                        ) by {
                        let t = s.update(i as int, (Slot { id: s[i as int].id, entry: en }));
                        lemma_as_map_update(s, i as int, Slot { id: s[i as int].id, entry: en });
                        assert forall|a: int, b: int|
                            0 <= a < b < t.len() implies crate::id::lex_lt(t[a].id@, t[b].id@) by {
                            assert(t[a].id@ == s[a].id@);
                            assert(t[b].id@ == s[b].id@);
                        }
                        assert forall|a: int| 0 <= a < ks.len() implies exists|j: int|
                            0 <= j < t.len() && (#[trigger] ks[a])@ == t[j].id@ by {
                            let j = choose|j: int| 0 <= j < s.len() && ks[a]@ == s[j].id@;
                            assert(t[j].id@ == s[j].id@);
                        }
                        assert forall|j: int| 0 <= j < t.len() implies exists|a: int|
                            0 <= a < ks.len() && ks[a]@ == (#[trigger] t[j]).id@ by {
                            assert(t[j].id@ == s[j].id@);
                            let a = choose|a: int| 0 <= a < ks.len() && ks[a]@ == s[j].id@;
                        }
                    }
                }
                Some(&mut self.slots[i].entry)
            },
            Err(_) => {
                proof {
                    lemma_as_map_contains(self.slots@, id@);
                }
                None
            },
        }
    }

    /// Inserts the peer under its own id, or replaces the entry already
    /// registered there without duplicating its key in the key list;
    /// either way the new entry starts with no connection context, and any
    /// prior context for that key is discarded. A fresh key is appended to
    /// the traversal order.
    #[verifier::rlimit(80)]
    pub fn add(&mut self, peer: Arc<Peer>)
        requires
            old(self).wf(),
        ensures
            final(self).wf(),
            final(self)@ == model_add(old(self)@, peer),
            final(self).cursor() == old(self).cursor(),
            old(self)@.dom().contains((*peer).key()) ==> final(self).key_order() == old(
                self,
            ).key_order(),
            !old(self)@.dom().contains((*peer).key()) ==> final(self).key_order() == old(
                self,
            ).key_order().push((*peer).key()),
    {
        let pid: PeerId = *peer.id();
        proof {
            self.lemma_wf_distinct();
            lemma_slot_ids_len(self.slots@);
            pid.lemma_len();
            lemma_as_map_contains(self.slots@, pid@);
        }
        match find_sorted(&self.slots, &pid) {
            Ok(i) => {
                let entry = PeerEntry { peer, context: None };
                proof {
                    let ghost gentry = entry;
                    let ghost s = self.slots@;
                    let ghost ks = self.keys@;
                    lemma_as_map_index(s, i as int);
                    assert(s[i as int].id@ == pid@);
                    lemma_as_map_update(s, i as int, Slot { id: s[i as int].id, entry: gentry });
                    lemma_keys_match_update(s, ks, i as int, gentry);
                    let ghost t = s.update(i as int, (Slot { id: s[i as int].id, entry: gentry }));
                    assert forall|a: int, b: int|
                        0 <= a < b < t.len() implies crate::id::lex_lt(t[a].id@, t[b].id@) by {
                        assert(t[a].id@ == s[a].id@);
                        assert(t[b].id@ == s[b].id@);
                    }
                }
                let entry_ref = &mut self.slots[i].entry;
                *entry_ref = entry;
            },
            Err(i) => {
                let sl = Slot { id: pid, entry: PeerEntry { peer, context: None } };
                proof {
                    let ghost gsl = sl;
                    lemma_as_map_insert_at(self.slots@, i as int, gsl);
                    let ghost s = self.slots@;
                    let ghost ks = self.keys@;
                    let ghost t = self.slots@.insert(i as int, gsl);
                    assert forall|a: int, b: int| 0 <= a < b < t.len() implies crate::id::lex_lt(
                        t[a].id@,
                        t[b].id@,
                    ) by {
                        if a < i && b == i {
                            assert(t[a].id@ == s[a].id@);
                        } else if a == i && b > i {
                            assert(t[b].id@ == s[b - 1].id@);
                        } else {
                            let sa = if a < i { a } else { a - 1 };
                            let sb = if b < i { b } else { b - 1 };
                            assert(t[a].id@ == s[sa].id@);
                            assert(t[b].id@ == s[sb].id@);
                        }
                    }
                    lemma_keys_match_push(s, ks, i as int, gsl);
                }
                self.slots.insert(i, sl);
                self.keys.push(pid);
                proof {
                    assert(final(self).key_order() =~= old(self).key_order().push(pid@));
                }
            },
        }
    }

    /// Removes and returns the entry registered under `id`, deleting its
    /// key from the traversal order; absent ids are a no-op that returns
    /// nothing.
    #[verifier::rlimit(80)]
    pub fn remove(&mut self, id: &PeerId) -> (r: Option<PeerEntry>)
        requires
            old(self).wf(),
        ensures
            final(self).wf(),
            final(self)@ == model_remove(old(self)@, id@),
            final(self).cursor() == old(self).cursor(),
            match r {
                Some(e) => model_lookup(old(self)@, id@) == Some(e),
                None => model_lookup(old(self)@, id@) is None && *final(self) == *old(self),
            },
    {
        proof {
            self.lemma_wf_distinct();
            lemma_slot_ids_len(self.slots@);
            id.lemma_len();
        }
        match find_sorted(&self.slots, id) {
            Ok(i) => {
                proof {
                    lemma_as_map_index(self.slots@, i as int);
                    lemma_as_map_remove(self.slots@, i as int);
                }
                let sl = self.slots.remove(i);
                let kj = match find_key(&self.keys, id) {
                    Some(kj) => kj,
                    None => {
                        // unreachable: the key list holds a key for every
                        // stored slot
                        proof {
                            let ghost j = choose|a: int|
                                0 <= a < old(self).keys@.len() && old(self).keys@[a]@
                                    == old(self).slots@[i as int].id@;
                            assert(false);
                        }
                        0
                    },
                };
                self.keys.remove(kj);
                proof {
                    let ghost s = old(self).slots@;
                    let ghost ks = old(self).keys@;
                    let ghost t = self.slots@;
                    let ghost kt = self.keys@;
                    assert forall|a: int, b: int|
                        0 <= a < b < t.len() implies crate::id::lex_lt(t[a].id@, t[b].id@) by {
                        let sa = if a < i { a } else { a + 1 };
                        let sb = if b < i { b } else { b + 1 };
                        assert(t[a].id@ == s[sa].id@);
                        assert(t[b].id@ == s[sb].id@);
                    }
                    lemma_keys_match_remove(s, ks, i as int, kj as int);
                    assert(t == s.remove(i as int));
                    assert(kt == ks.remove(kj as int));
                }
                Some(sl.entry)
            },
            Err(_) => {
                proof {
                    lemma_as_map_contains(self.slots@, id@);
                    assert(model_remove(self@, id@) =~= self@);
                }
                None
            },
        }
    }

    /// Calls `f` once per stored (id, peer) pair under one logical
    /// operation; no iteration order is part of the contract.
    pub fn for_each<F: Fn(&PeerId, &Peer)>(&self, f: F)
        requires
            self.wf(),
            forall|id: &PeerId, p: &Peer| call_requires(f, (id, p)),
        ensures
            forall|i: int|
                0 <= i < self.entry_order().len() ==> call_ensures(
                    f,
                    (&self.slot_at(i).id, &*self.slot_at(i).entry.peer),
                    (),
                ),
    {
        let n = self.slots.len();
        let mut i: usize = 0;
        while i < n
            invariant
                0 <= i <= n,
                n == self.slots@.len(),
                forall|id: &PeerId, p: &Peer| call_requires(f, (id, p)),
                forall|j: int|
                    0 <= j < i ==> call_ensures(
                        f,
                        (&self.slot_at(j).id, &*self.slot_at(j).entry.peer),
                        (),
                    ),
            decreases n - i,
        {
            f(&self.slots[i].id, &*self.slots[i].entry.peer);
            i = i + 1;
        }
    }

    /// Selects one peer satisfying `f`, resuming from the fairness cursor
    /// so that successive calls begin their scan at successive positions
    /// of the key list. Within one call each entry is probed at most once;
    /// while the cursor arithmetic does not wrap, a call that returns
    /// nothing has probed every entry and seen the predicate answer false
    /// on each.
    #[verifier::rlimit(80)]
    pub fn fair_find<F: Fn(&Peer) -> bool>(&mut self, f: F) -> (r: Option<PeerId>)
        requires
            old(self).wf(),
            forall|p: &Peer| call_requires(f, (p,)),
        ensures
            final(self).wf(),
            final(self)@ == old(self)@,
            final(self).key_order() == old(self).key_order(),
            old(self).cursor() + old(self).key_order().len() <= usize::MAX as nat ==> old(self).cursor()
                <= final(self).cursor() <= old(self).cursor() + old(self).key_order().len(),
            match r {
                Some(id) => old(self)@.dom().contains(id@) && probe_result(
                    f,
                    old(self)@[id@],
                    true,
                ),
                None => old(self).cursor() + old(self).key_order().len() <= usize::MAX as nat
                    ==> forall|k: Seq<u8>|
                    old(self)@.dom().contains(k) ==> probe_result(f, old(self)@[k], false),
            },
    {
        let n = self.keys.len();
        if n == 0 {
            proof {
                lemma_as_map_contains(self.slots@, choose|k: Seq<u8>| self@.dom().contains(k));
            }
            return None;
        }
        proof {
            self.lemma_wf_distinct();
        }
        let ghost c0 = self.counter as int;
        let mut t: usize = 0;
        while t < n
            invariant
                0 < n,
                n == self.keys@.len(),
                self.slots@ == old(self).slots@,
                self.keys@ == old(self).keys@,
                old(self).wf(),
                self.wf(),
                distinct_ids(self.slots@),
                c0 == old(self).counter as int,
                forall|p: &Peer| call_requires(f, (p,)),
                0 <= t <= n,
                c0 + n <= usize::MAX as int ==> self.counter as int == c0 + t,
                c0 + n <= usize::MAX as int ==> forall|u: int|
                    0 <= u < t ==> probe_result(
                        f,
                        as_map(self.slots@)[self.keys@[#[trigger] ((c0 + u) % (n as int))]@],
                        false,
                    ),
            decreases n - t,
        {
            let c = self.counter;
            self.counter = if c == usize::MAX {
                0
            } else {
                c + 1
            };
            let idx = c % n;
            proof {
                vstd::arithmetic::div_mod::lemma_mod_division_less_than_divisor(
                    c as int,
                    n as int,
                );
                lemma_slot_ids_len(self.slots@);
                self.keys@[idx as int].lemma_len();
            }
            let pid = self.keys[idx];
            let si = match find_sorted(&self.slots, &pid) {
                Ok(si) => si,
                Err(e) => {
                    // unreachable: every key of the key list is stored
                    proof {
                        let ghost j = choose|j: int|
                            0 <= j < self.slots@.len() && self.slots@[j].id@
                                == self.keys@[idx as int]@;
                        assert(false);
                    }
                    e
                },
            };
            proof {
                lemma_as_map_index(self.slots@, si as int);
            }
            let matched = f(&*self.slots[si].entry.peer);
            if matched {
                return Some(pid);
            }
            t = t + 1;
        }
        proof {
            if c0 + n <= usize::MAX as int {
                assert forall|k: Seq<u8>| old(self)@.dom().contains(k) implies probe_result(
                    f,
                    old(self)@[k],
                    false,
                ) by {
                    lemma_as_map_contains(self.slots@, k);
                    let j = choose|j: int| 0 <= j < self.slots@.len() && self.slots@[j].id@ == k;
                    let i = choose|i: int|
                        0 <= i < self.keys@.len() && self.keys@[i]@ == self.slots@[j].id@;
                    crate::store::lemma_probes_cover(c0, n as int, i);
                    let u = choose|u: int| 0 <= u < n && #[trigger] ((c0 + u) % (n as int)) == i;
                    assert(probe_result(
                        f,
                        as_map(self.slots@)[self.keys@[(c0 + u) % (n as int)]@],
                        false,
                    ));
                }
            }
        }
        None
    }

    /// A snapshot of every registered peer handle, in storage order of the
    /// primary index; the order is not part of the contract.
    pub fn get_all(&self) -> (r: Vec<Arc<Peer>>)
        requires
            self.wf(),
        ensures
            r@.len() == self.entry_order().len(),
            forall|i: int|
                0 <= i < r@.len() ==> r@[i] == self@[#[trigger] self.entry_order()[i]].peer,
    {
        proof {
            self.lemma_key_index_consistent();
        }
        let r = collect_peers(&self.slots);
        proof {
            assert forall|i: int| 0 <= i < r@.len() implies r@[i] == self@[
                #[trigger] self.entry_order()[i]
            ].peer by {
                assert(self.slot_at(i).entry == self@[self.entry_order()[i]]);
                assert(r@[i] == self.slots@[i].entry.peer);
            }
        }
        r
    }

    /// True exactly when an entry for `id` exists and is connected.
    pub fn is_connected(&self, id: &PeerId) -> (r: bool)
        requires
            self.wf(),
        ensures
            r == (self@.dom().contains(id@) && self@[id@].context is Some),
    {
        match self.get(id) {
            Some(e) => e.context.is_some(),
            None => false,
        }
    }

    /// The number of connected entries, saturating at the historical
    /// 8-bit representation limit of 255.
    pub fn connected_peers(&self) -> (r: u8)
        requires
            self.wf(),
        ensures
            r as nat == if self.connected_count() > 255 {
                255nat
            } else {
                self.connected_count()
            },
    {
        count_connected_entries(&self.slots)
    }

    /// Connection accounting: the connected count is exactly the number of
    /// ids for which `is_connected` holds.
    pub proof fn lemma_connection_accounting(&self)
        requires
            self.wf(),
        ensures
            connected_keys(self@).finite(),
            self.connected_count() == connected_keys(self@).len(),
    {
        self.lemma_wf_distinct();
        lemma_count_connected_matches(self.slots@);
    }
}

} // verus!
