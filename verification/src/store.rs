//! The common storage model shared by the three registry backends.
//!
//! Every backend keeps its entries in a sequence of slots; the abstract
//! state of a registry is the finite map from peer identifiers to entries
//! induced by that sequence. The lemmas here relate sequence-level edits
//! (append, update, remove) to map-level operations, so that each backend
//! can state its contract over one and the same model.

use vstd::prelude::*;
use std::sync::Arc;
use crate::id::{PeerId, lex_lt, lemma_lex_lt_trichotomy};
use crate::peer::{Peer, PeerEntry};

verus! {

/// One stored slot: the identifier a peer is keyed under, and its entry.
pub struct Slot {
    /// The key of this slot; equal to the id of the peer in the entry.
    pub id: PeerId,
    /// The stored entry.
    pub entry: PeerEntry,
}

/// The keys of a slot sequence, in storage order.
pub open spec fn ids(s: Seq<Slot>) -> Seq<Seq<u8>> {
    s.map_values(|sl: Slot| sl.id@)
}

/// No two slots share a key.
pub open spec fn distinct_ids(s: Seq<Slot>) -> bool {
    forall|i: int, j: int| 0 <= i < j < s.len() ==> s[i].id@ != s[j].id@
}

/// Slot keys are strictly increasing in the lexicographic order.
pub open spec fn sorted_ids(s: Seq<Slot>) -> bool {
    forall|i: int, j: int| 0 <= i < j < s.len() ==> lex_lt(s[i].id@, s[j].id@)
}

/// A strictly sorted slot sequence has distinct keys.
pub proof fn lemma_sorted_implies_distinct(s: Seq<Slot>)
    requires
        sorted_ids(s),
        forall|i: int| 0 <= i < s.len() ==> (#[trigger] s[i].id@).len() == 64,
    ensures
        distinct_ids(s),
{
    assert forall|i: int, j: int| 0 <= i < j < s.len() implies s[i].id@ != s[j].id@ by {
        lemma_lex_lt_trichotomy(s[i].id@, s[j].id@);
    }
}

/// The finite map induced by a slot sequence; a later slot would override
/// an earlier one with the same key, though backends never store two.
pub open spec fn as_map(s: Seq<Slot>) -> Map<Seq<u8>, PeerEntry>
    decreases s.len(),
{
    if s.len() == 0 {
        Map::empty()
    } else {
        as_map(s.drop_last()).insert(s.last().id@, s.last().entry)
    }
}

/// A key is in the induced map exactly when some slot carries it.
pub proof fn lemma_as_map_contains(s: Seq<Slot>, k: Seq<u8>)
    ensures
        as_map(s).dom().contains(k) <==> exists|i: int| 0 <= i < s.len() && s[i].id@ == k,
    decreases s.len(),
{
    if s.len() > 0 {
        lemma_as_map_contains(s.drop_last(), k);
        if s.last().id@ == k {
            assert(s[s.len() - 1].id@ == k);
        } else if as_map(s).dom().contains(k) {
            let i = choose|i: int| 0 <= i < s.drop_last().len() && s.drop_last()[i].id@ == k;
            assert(s[i].id@ == k);
        } else {
            assert forall|i: int| 0 <= i < s.len() implies s[i].id@ != k by {
                if i < s.len() - 1 {
                    assert(s.drop_last()[i].id@ == s[i].id@);
                }
            }
        }
    }
}

/// With distinct keys, the induced map sends each slot's key to its entry.
pub proof fn lemma_as_map_index(s: Seq<Slot>, i: int)
    requires
        distinct_ids(s),
        0 <= i < s.len(),
    ensures
        as_map(s).dom().contains(s[i].id@),
        as_map(s)[s[i].id@] == s[i].entry,
    decreases s.len(),
{
    lemma_as_map_contains(s, s[i].id@);
    if i < s.len() - 1 {
        assert(s.drop_last()[i] == s[i]);
        lemma_as_map_index(s.drop_last(), i);
        assert(s[i].id@ != s.last().id@);
    }
}

/// The induced map's domain is the set of stored keys, hence finite, with
/// as many keys as slots when keys are distinct.
pub proof fn lemma_as_map_dom(s: Seq<Slot>)
    requires
        distinct_ids(s),
    ensures
        as_map(s).dom().finite(),
        as_map(s).dom().len() == s.len(),
    decreases s.len(),
{
    if s.len() > 0 {
        lemma_as_map_dom(s.drop_last());
        lemma_as_map_contains(s.drop_last(), s.last().id@);
    }
}

/// Appending a slot with a fresh key inserts it into the induced map.
pub proof fn lemma_as_map_push(s: Seq<Slot>, sl: Slot)
    ensures
        as_map(s.push(sl)) == as_map(s).insert(sl.id@, sl.entry),
{
    assert(s.push(sl).drop_last() =~= s);
    assert(s.push(sl).last() == sl);
    assert(as_map(s.push(sl)) == as_map(s.push(sl).drop_last()).insert(
        s.push(sl).last().id@,
        s.push(sl).last().entry,
    ));
}

/// Overwriting the slot at `i` by one with the same key updates the induced
/// map at that key.
pub proof fn lemma_as_map_update(s: Seq<Slot>, i: int, sl: Slot)
    requires
        distinct_ids(s),
        0 <= i < s.len(),
        sl.id@ == s[i].id@,
    ensures
        as_map(s.update(i, sl)) =~= as_map(s).insert(sl.id@, sl.entry),
        distinct_ids(s.update(i, sl)),
{
    let t = s.update(i, sl);
    assert forall|ii: int, jj: int| 0 <= ii < jj < t.len() implies t[ii].id@ != t[jj].id@ by {
        assert(s[ii].id@ != s[jj].id@);
    }
    assert forall|k: Seq<u8>|
        as_map(t).dom().contains(k) == as_map(s).insert(sl.id@, sl.entry).dom().contains(k) by {
        lemma_as_map_contains(t, k);
        lemma_as_map_contains(s, k);
        if exists|j: int| 0 <= j < s.len() && s[j].id@ == k {
            let j = choose|j: int| 0 <= j < s.len() && s[j].id@ == k;
            assert(t[j].id@ == k);
        }
        if exists|j: int| 0 <= j < t.len() && t[j].id@ == k {
            let j = choose|j: int| 0 <= j < t.len() && t[j].id@ == k;
            assert(s[j].id@ == k || k == sl.id@);
        }
    }
    assert forall|k: Seq<u8>| as_map(t).dom().contains(k) implies as_map(t)[k] == as_map(s).insert(
        sl.id@,
        sl.entry,
    )[k] by {
        lemma_as_map_contains(t, k);
        let j = choose|j: int| 0 <= j < t.len() && t[j].id@ == k;
        lemma_as_map_index(t, j);
        if k == sl.id@ {
            assert(j == i);
        } else {
            assert(s[j] == t[j]);
            lemma_as_map_index(s, j);
        }
    }
}

/// Removing the slot at `i` removes its key from the induced map and keeps
/// every other association.
pub proof fn lemma_as_map_remove(s: Seq<Slot>, i: int)
    requires
        distinct_ids(s),
        0 <= i < s.len(),
    ensures
        as_map(s.remove(i)) =~= as_map(s).remove(s[i].id@),
        distinct_ids(s.remove(i)),
        ids(s.remove(i)) =~= ids(s).remove(i),
{
    let t = s.remove(i);
    assert forall|ii: int, jj: int| 0 <= ii < jj < t.len() implies t[ii].id@ != t[jj].id@ by {
        let si = if ii < i { ii } else { ii + 1 };
        let sj = if jj < i { jj } else { jj + 1 };
        assert(t[ii] == s[si]);
        assert(t[jj] == s[sj]);
        assert(s[si].id@ != s[sj].id@);
    }
    assert forall|k: Seq<u8>|
        as_map(t).dom().contains(k) == as_map(s).remove(s[i].id@).dom().contains(k) by {
        lemma_as_map_contains(t, k);
        lemma_as_map_contains(s, k);
        if exists|j: int| 0 <= j < t.len() && t[j].id@ == k {
            let j = choose|j: int| 0 <= j < t.len() && t[j].id@ == k;
            let sj = if j < i { j } else { j + 1 };
            assert(s[sj].id@ == k);
            assert(k != s[i].id@);
        }
        if k != s[i].id@ && exists|j: int| 0 <= j < s.len() && s[j].id@ == k {
            let j = choose|j: int| 0 <= j < s.len() && s[j].id@ == k;
            let tj = if j < i { j } else { j - 1 };
            assert(j != i);
            assert(t[tj].id@ == k);
        }
    }
    assert forall|k: Seq<u8>| as_map(t).dom().contains(k) implies as_map(t)[k] == as_map(
        s,
    ).remove(s[i].id@)[k] by {
        lemma_as_map_contains(t, k);
        let j = choose|j: int| 0 <= j < t.len() && t[j].id@ == k;
        lemma_as_map_index(t, j);
        let sj = if j < i { j } else { j + 1 };
        assert(t[j] == s[sj]);
        lemma_as_map_index(s, sj);
        assert(k != s[i].id@);
    }
}

/// Every stored key has the fixed identifier width.
pub proof fn lemma_slot_ids_len(s: Seq<Slot>)
    ensures
        forall|i: int| 0 <= i < s.len() ==> (#[trigger] s[i].id@).len() == 64,
{
    assert forall|i: int| 0 <= i < s.len() implies (#[trigger] s[i].id@).len() == 64 by {
        s[i].id.lemma_len();
    }
}

/// Placing a slot with a fresh key at position `i` inserts it into the
/// induced map and shifts the later slots up.
pub proof fn lemma_as_map_insert_at(s: Seq<Slot>, i: int, sl: Slot)
    requires
        distinct_ids(s),
        0 <= i <= s.len(),
        forall|j: int| 0 <= j < s.len() ==> s[j].id@ != sl.id@,
    ensures
        as_map(s.insert(i, sl)) =~= as_map(s).insert(sl.id@, sl.entry),
        distinct_ids(s.insert(i, sl)),
{
    let t = s.insert(i, sl);
    assert(t.len() == s.len() + 1);
    assert(t[i] == sl);
    assert forall|j: int| 0 <= j < t.len() && j != i implies t[j] == s[if j < i {
        j
    } else {
        j - 1
    }] by {}
    assert forall|ii: int, jj: int| 0 <= ii < jj < t.len() implies t[ii].id@ != t[jj].id@ by {
        if ii != i && jj != i {
            let si = if ii < i { ii } else { ii - 1 };
            let sj = if jj < i { jj } else { jj - 1 };
            assert(s[si].id@ != s[sj].id@);
        }
    }
    assert forall|k: Seq<u8>|
        as_map(t).dom().contains(k) == as_map(s).insert(sl.id@, sl.entry).dom().contains(k) by {
        lemma_as_map_contains(t, k);
        lemma_as_map_contains(s, k);
        if exists|j: int| 0 <= j < s.len() && s[j].id@ == k {
            let j = choose|j: int| 0 <= j < s.len() && s[j].id@ == k;
            let tj = if j < i { j } else { j + 1 };
            assert(t[tj].id@ == k);
        }
        if exists|j: int| 0 <= j < t.len() && t[j].id@ == k {
            let j = choose|j: int| 0 <= j < t.len() && t[j].id@ == k;
            if j != i {
                let sj = if j < i { j } else { j - 1 };
                assert(s[sj].id@ == k);
            }
        }
    }
    assert forall|k: Seq<u8>| as_map(t).dom().contains(k) implies as_map(t)[k] == as_map(
        s,
    ).insert(sl.id@, sl.entry)[k] by {
        lemma_as_map_contains(t, k);
        let j = choose|j: int| 0 <= j < t.len() && t[j].id@ == k;
        lemma_as_map_index(t, j);
        if j != i {
            let sj = if j < i { j } else { j - 1 };
            assert(t[j] == s[sj]);
            lemma_as_map_index(s, sj);
            assert(k != sl.id@);
        }
    }
}

/// How many stored entries currently hold a connection context.
pub open spec fn count_connected(s: Seq<Slot>) -> nat
    decreases s.len(),
{
    if s.len() == 0 {
        0
    } else {
        count_connected(s.drop_last()) + (if s.last().entry.context is Some {
            1nat
        } else {
            0nat
        })
    }
}

/// The set of keys whose entries currently hold a connection context.
pub open spec fn connected_keys(m: Map<Seq<u8>, PeerEntry>) -> Set<Seq<u8>> {
    m.dom().filter(|k: Seq<u8>| m[k].context is Some)
}

/// The connected count of a slot sequence with distinct keys equals the
/// number of keys whose entry is connected.
pub proof fn lemma_count_connected_matches(s: Seq<Slot>)
    requires
        distinct_ids(s),
    ensures
        connected_keys(as_map(s)).finite(),
        connected_keys(as_map(s)).len() == count_connected(s),
    decreases s.len(),
{
    lemma_as_map_dom(s);
    if s.len() == 0 {
        assert(connected_keys(as_map(s)) =~= Set::<Seq<u8>>::empty());
    } else {
        let d = s.drop_last();
        lemma_count_connected_matches(d);
        lemma_as_map_dom(d);
        lemma_as_map_contains(d, s.last().id@);
        assert(forall|i: int| 0 <= i < d.len() ==> d[i] == s[i]);
        assert(!as_map(d).dom().contains(s.last().id@));
        if s.last().entry.context is Some {
            assert(connected_keys(as_map(s)) =~= connected_keys(as_map(d)).insert(s.last().id@));
        } else {
            assert(connected_keys(as_map(s)) =~= connected_keys(as_map(d)));
        }
    }
}

/// The connected count never exceeds the number of entries.
pub proof fn lemma_count_connected_bound(s: Seq<Slot>)
    ensures
        count_connected(s) <= s.len(),
    decreases s.len(),
{
    if s.len() > 0 {
        lemma_count_connected_bound(s.drop_last());
    }
}

/// Counts the stored entries that hold a connection context, saturating at
/// the historical 8-bit representation limit.
pub fn count_connected_entries(v: &Vec<Slot>) -> (r: u8)
    ensures
        r as nat == if count_connected(v@) > 255 {
            255nat
        } else {
            count_connected(v@)
        },
{
    let n = v.len();
    let mut count: usize = 0;
    let mut i: usize = 0;
    while i < n
        invariant
            0 <= i <= n,
            n == v@.len(),
            count as nat == count_connected(v@.take(i as int)),
            count <= i,
        decreases n - i,
    {
        proof {
            assert(v@.take(i + 1).drop_last() =~= v@.take(i as int));
            assert(v@.take(i + 1).last() == v@[i as int]);
            lemma_count_connected_bound(v@.take(i as int));
        }
        if v[i].entry.context.is_some() {
            count = count + 1;
        }
        i = i + 1;
    }
    proof {
        assert(v@.take(n as int) =~= v@);
    }
    if count > 255 {
        255
    } else {
        count as u8
    }
}

/// Snapshots every stored peer handle, in storage order.
pub fn collect_peers(v: &Vec<Slot>) -> (r: Vec<Arc<Peer>>)
    ensures
        r@.len() == v@.len(),
        forall|i: int| 0 <= i < v@.len() ==> r@[i] == v@[i].entry.peer,
{
    let n = v.len();
    let mut r: Vec<Arc<Peer>> = Vec::new();
    let mut i: usize = 0;
    while i < n
        invariant
            0 <= i <= n,
            n == v@.len(),
            r@.len() == i,
            forall|j: int| 0 <= j < i ==> r@[j] == v@[j].entry.peer,
        decreases n - i,
    {
        r.push(crate::peer::clone_peer_handle(&v[i].entry.peer));
        i = i + 1;
    }
    r
}

/// Finds the position of `id` in an unsorted slot sequence by linear scan.
pub fn find_linear(v: &Vec<Slot>, id: &PeerId) -> (r: Option<usize>)
    ensures
        match r {
            Some(i) => i < v@.len() && v@[i as int].id@ == id@,
            None => forall|j: int| 0 <= j < v@.len() ==> v@[j].id@ != id@,
        },
{
    let n = v.len();
    let mut i: usize = 0;
    while i < n
        invariant
            0 <= i <= n,
            n == v@.len(),
            forall|j: int| 0 <= j < i ==> v@[j].id@ != id@,
        decreases n - i,
    {
        if v[i].id == *id {
            return Some(i);
        }
        i = i + 1;
    }
    None
}

/// Finds the position of `id` in a key list by linear scan.
pub fn find_key(v: &Vec<PeerId>, id: &PeerId) -> (r: Option<usize>)
    ensures
        match r {
            Some(i) => i < v@.len() && v@[i as int]@ == id@,
            None => forall|j: int| 0 <= j < v@.len() ==> v@[j]@ != id@,
        },
{
    let n = v.len();
    let mut i: usize = 0;
    while i < n
        invariant
            0 <= i <= n,
            n == v@.len(),
            forall|j: int| 0 <= j < i ==> v@[j]@ != id@,
        decreases n - i,
    {
        if v[i] == *id {
            return Some(i);
        }
        i = i + 1;
    }
    None
}

/// Finds `id` in a sorted slot sequence by binary search: `Ok` carries the
/// position of the match, `Err` the insertion point that keeps the
/// sequence sorted.
pub fn find_sorted(v: &Vec<Slot>, id: &PeerId) -> (r: Result<usize, usize>)
    requires
        sorted_ids(v@),
        forall|j: int| 0 <= j < v@.len() ==> (#[trigger] v@[j].id@).len() == 64,
        id@.len() == 64,
    ensures
        match r {
            Ok(i) => i < v@.len() && v@[i as int].id@ == id@,
            Err(i) => i <= v@.len() && (forall|j: int| 0 <= j < v@.len() ==> v@[j].id@ != id@)
                && (forall|j: int| 0 <= j < i ==> lex_lt(#[trigger] v@[j].id@, id@)) && (forall|
                j: int,
            |
                i <= j < v@.len() ==> lex_lt(id@, #[trigger] v@[j].id@)),
        },
{
    let mut lo: usize = 0;
    let mut hi: usize = v.len();
    while lo < hi
        invariant
            0 <= lo <= hi <= v@.len(),
            sorted_ids(v@),
            forall|j: int| 0 <= j < v@.len() ==> (#[trigger] v@[j].id@).len() == 64,
            id@.len() == 64,
            forall|j: int| 0 <= j < lo ==> lex_lt(#[trigger] v@[j].id@, id@),
            forall|j: int| hi <= j < v@.len() ==> lex_lt(id@, #[trigger] v@[j].id@),
        decreases hi - lo,
    {
        let mid = lo + (hi - lo) / 2;
        if v[mid].id.lt(id) {
            assert forall|j: int| 0 <= j < mid + 1 implies lex_lt(#[trigger] v@[j].id@, id@) by {
                if j < mid {
                    crate::id::lemma_lex_lt_transitive(v@[j].id@, v@[mid as int].id@, id@);
                }
            }
            lo = mid + 1;
        } else if id.lt(&v[mid].id) {
            assert forall|j: int| mid <= j < v@.len() implies lex_lt(id@, #[trigger] v@[j].id@) by {
                if j > mid {
                    crate::id::lemma_lex_lt_transitive(id@, v@[mid as int].id@, v@[j].id@);
                }
            }
            hi = mid;
        } else {
            proof {
                lemma_lex_lt_trichotomy(v@[mid as int].id@, id@);
            }
            return Ok(mid);
        }
    }
    proof {
        assert forall|j: int| 0 <= j < v@.len() implies v@[j].id@ != id@ by {
            lemma_lex_lt_trichotomy(v@[j].id@, id@);
        }
    }
    Err(lo)
}

/// The fairness property of the probe schedule: `n` consecutive counter
/// values, taken modulo `n`, visit every position once.
pub proof fn lemma_probes_cover(c0: int, n: int, j: int)
    requires
        0 <= c0,
        0 < n,
        0 <= j < n,
    ensures
        exists|t: int| 0 <= t < n && #[trigger] ((c0 + t) % n) == j,
{
    vstd::arithmetic::div_mod::lemma_fundamental_div_mod(c0, n);
    vstd::arithmetic::div_mod::lemma_mod_division_less_than_divisor(c0, n);
    let q = c0 / n;
    let r = c0 % n;
    if j >= r {
        let t = j - r;
        assert(c0 + t == n * q + j);
        vstd::arithmetic::div_mod::lemma_mod_multiples_vanish(q, j, n);
        vstd::arithmetic::div_mod::lemma_small_mod(j as nat, n as nat);
        assert((c0 + t) % n == j);
    } else {
        let t = j + n - r;
        assert(c0 + t == n * (q + 1) + j) by (nonlinear_arith)
            requires
                c0 == n * q + r,
                t == j + n - r,
        ;
        vstd::arithmetic::div_mod::lemma_mod_multiples_vanish(q + 1, j, n);
        vstd::arithmetic::div_mod::lemma_small_mod(j as nat, n as nat);
        assert((c0 + t) % n == j);
    }
}

/// What the predicate handed to `fair_find` may have answered on a stored
/// entry's peer: `b` is a possible result of applying `f` to it.
pub open spec fn probe_result<F: Fn(&Peer) -> bool>(f: F, e: PeerEntry, b: bool) -> bool {
    call_ensures(f, (&*e.peer,), b)
}

/// Fairness bound: consider a `fair_find` call whose cursor did not wrap,
/// so that its observables satisfy the search contract (`r` names a key
/// whose peer the predicate accepted, or no probed peer was accepted), over
/// a registry holding a key `u` whose peer the predicate always accepts
/// while it never accepts any other stored peer. Then that single call —
/// hence at most `k` probes over `k` distinct peers — already returns `u`.
pub proof fn lemma_fair_find_bound<F: Fn(&Peer) -> bool>(
    m: Map<Seq<u8>, PeerEntry>,
    f: F,
    r: Option<PeerId>,
    u: Seq<u8>,
)
    requires
        match r {
            Some(id) => m.dom().contains(id@) && probe_result(f, m[id@], true),
            None => forall|k: Seq<u8>| m.dom().contains(k) ==> probe_result(f, m[k], false),
        },
        m.dom().contains(u),
        !probe_result(f, m[u], false),
        forall|k: Seq<u8>|
            m.dom().contains(k) && k != u ==> !probe_result(f, #[trigger] m[k], true),
    ensures
        r matches Some(id) && id@ == u,
{
    match r {
        Some(id) => {
            if id@ != u {
                assert(!probe_result(f, m[id@], true));
            }
        },
        None => {
            assert(probe_result(f, m[u], false));
        },
    }
}

/// The abstract effect of `add`: insert or replace the entry for the
/// peer's own id, with no connection context.
pub open spec fn model_add(m: Map<Seq<u8>, PeerEntry>, peer: Arc<Peer>) -> Map<
    Seq<u8>,
    PeerEntry,
> {
    m.insert((*peer).key(), (PeerEntry { peer, context: None }))
}

/// The abstract effect of `remove`: drop the association for `k`, if any.
pub open spec fn model_remove(m: Map<Seq<u8>, PeerEntry>, k: Seq<u8>) -> Map<Seq<u8>, PeerEntry> {
    m.remove(k)
}

/// The abstract result of `get`: the entry stored under `k`, if any.
pub open spec fn model_lookup(m: Map<Seq<u8>, PeerEntry>, k: Seq<u8>) -> Option<PeerEntry> {
    if m.dom().contains(k) {
        Some(m[k])
    } else {
        None
    }
}

/// Round-trip law: after adding a peer, looking its id up yields an entry
/// holding exactly that peer handle and no connection context.
pub proof fn lemma_add_lookup(m: Map<Seq<u8>, PeerEntry>, peer: Arc<Peer>)
    ensures
        model_lookup(model_add(m, peer), (*peer).key()) == Some(
            (PeerEntry { peer, context: None }),
        ),
{
}

/// Removal law: removing a key after adding a peer under it leaves no
/// association for that key, and removing an absent key changes nothing.
pub proof fn lemma_remove_correct(m: Map<Seq<u8>, PeerEntry>, peer: Arc<Peer>, k: Seq<u8>)
    ensures
        model_lookup(model_remove(model_add(m, peer), (*peer).key()), (*peer).key()) is None,
        !m.dom().contains(k) ==> model_remove(m, k) =~= m,
{
}

/// Uniqueness law: whatever entry a key is inserted over, each key holds at
/// most one association, and a second add under the same key replaces the
/// peer handle and discards the prior context.
pub proof fn lemma_add_replaces(m: Map<Seq<u8>, PeerEntry>, p1: Arc<Peer>, p2: Arc<Peer>)
    requires
        (*p1).key() == (*p2).key(),
    ensures
        model_add(model_add(m, p1), p2) =~= model_add(m, p2),
        model_lookup(model_add(model_add(m, p1), p2), (*p1).key()) == Some(
            (PeerEntry { peer: p2, context: None }),
        ),
{
}

} // verus!
