use std::cell::RefCell;
use std::sync::Arc;

use peer_registry::btree_manager::BTreeMapPeerManager;
use peer_registry::hash_manager::HashMapPeerManager;
use peer_registry::id::PeerId;
use peer_registry::peer::{ConnectionContext, Peer};
use peer_registry::vec_manager::VecPeerManager;

fn id_with(b: u8) -> PeerId {
    let mut bytes = [0u8; 64];
    bytes[0] = b;
    PeerId::new(bytes)
}

fn peer_with(b: u8) -> Arc<Peer> {
    Arc::new(Peer::new(id_with(b), [b; 64]))
}

fn context() -> ConnectionContext {
    let (gossip, _gossip_rx) = tokio::sync::mpsc::unbounded_channel::<Vec<u8>>();
    let (reply, _reply_rx) = futures_channel::oneshot::channel::<()>();
    ConnectionContext::new(gossip, reply)
}

#[test]
fn empty_registry_vec() {
    let mut reg = VecPeerManager::new();
    assert!(reg.is_empty());
    assert_eq!(reg.connected_peers(), 0);
    assert!(reg.fair_find(|_p: &Peer| true).is_none());
    assert!(reg.get(&id_with(1)).is_none());
}

#[test]
fn empty_registry_hash() {
    let mut reg = HashMapPeerManager::new();
    assert!(reg.is_empty());
    assert_eq!(reg.connected_peers(), 0);
    assert!(reg.fair_find(|_p: &Peer| true).is_none());
}

#[test]
fn empty_registry_btree() {
    let mut reg = BTreeMapPeerManager::new();
    assert!(reg.is_empty());
    assert_eq!(reg.connected_peers(), 0);
    assert!(reg.fair_find(|_p: &Peer| true).is_none());
}

#[test]
fn add_get_roundtrip_vec() {
    let mut reg = VecPeerManager::new();
    let p = peer_with(7);
    reg.add(p.clone());
    assert!(!reg.is_empty());
    let entry = reg.get(p.id()).expect("entry must be present after add");
    assert!(Arc::ptr_eq(&entry.peer, &p));
    assert!(entry.context.is_none());
    // the snapshot clones the stored handle, so it points at the same peer
    let all = reg.get_all();
    assert_eq!(all.len(), 1);
    assert!(Arc::ptr_eq(&all[0], &p));
}

#[test]
fn add_get_roundtrip_hash() {
    let mut reg = HashMapPeerManager::new();
    let p = peer_with(9);
    reg.add(p.clone());
    let entry = reg.get(p.id()).expect("entry must be present after add");
    assert!(Arc::ptr_eq(&entry.peer, &p));
    assert!(entry.context.is_none());
}

#[test]
fn add_get_roundtrip_btree() {
    let mut reg = BTreeMapPeerManager::new();
    let p = peer_with(11);
    reg.add(p.clone());
    let entry = reg.get(p.id()).expect("entry must be present after add");
    assert!(Arc::ptr_eq(&entry.peer, &p));
    assert!(entry.context.is_none());
}

#[test]
fn replace_keeps_one_entry_and_discards_context() {
    let mut reg = HashMapPeerManager::new();
    let first = peer_with(3);
    reg.add(first.clone());
    {
        let entry = reg.get_mut(&id_with(3)).expect("entry must be present");
        entry.context = Some(context());
    }
    assert!(reg.is_connected(&id_with(3)));
    let second = Arc::new(Peer::new(id_with(3), [42; 64]));
    reg.add(second.clone());
    assert_eq!(reg.get_all().len(), 1);
    let entry = reg.get(&id_with(3)).expect("entry must still be present");
    assert!(Arc::ptr_eq(&entry.peer, &second));
    assert!(entry.context.is_none());
    assert!(!reg.is_connected(&id_with(3)));
    assert_eq!(reg.connected_peers(), 0);
}

#[test]
fn remove_correctness_vec() {
    let mut reg = VecPeerManager::new();
    let p = peer_with(5);
    reg.add(p.clone());
    let removed = reg.remove(&id_with(5)).expect("remove must return the entry");
    assert!(Arc::ptr_eq(&removed.peer, &p));
    assert!(reg.get(&id_with(5)).is_none());
    assert!(reg.remove(&id_with(5)).is_none());
    assert!(reg.is_empty());
}

#[test]
fn remove_correctness_hash() {
    let mut reg = HashMapPeerManager::new();
    let p = peer_with(6);
    reg.add(p.clone());
    let removed = reg.remove(&id_with(6)).expect("remove must return the entry");
    assert!(Arc::ptr_eq(&removed.peer, &p));
    assert!(reg.get(&id_with(6)).is_none());
    assert!(reg.remove(&id_with(6)).is_none());
}

#[test]
fn remove_correctness_btree() {
    let mut reg = BTreeMapPeerManager::new();
    let p = peer_with(8);
    reg.add(p.clone());
    let removed = reg.remove(&id_with(8)).expect("remove must return the entry");
    assert!(Arc::ptr_eq(&removed.peer, &p));
    assert!(reg.get(&id_with(8)).is_none());
    assert!(reg.remove(&id_with(8)).is_none());
}

#[test]
fn hashed_scenario_three_peers() {
    let mut reg = HashMapPeerManager::new();
    let a = peer_with(1);
    let b = peer_with(2);
    let c = peer_with(3);
    reg.add(a.clone());
    reg.add(b.clone());
    reg.add(c.clone());
    assert_eq!(reg.get_all().len(), 3);

    assert!(reg.remove(&id_with(2)).is_some());
    assert!(reg.get(&id_with(2)).is_none());
    let all = reg.get_all();
    assert_eq!(all.len(), 2);
    assert!(all.iter().all(|p| *p.id() == id_with(1) || *p.id() == id_with(3)));
    assert!(all.iter().any(|p| *p.id() == id_with(1)));
    assert!(all.iter().any(|p| *p.id() == id_with(3)));

    for _ in 0..10 {
        let found = reg.fair_find(|_p: &Peer| true).expect("non-empty search must succeed");
        assert!(found == id_with(1) || found == id_with(3));
        assert!(found != id_with(2));
    }
}

#[test]
fn connection_accounting() {
    let mut reg = VecPeerManager::new();
    reg.add(peer_with(1));
    reg.add(peer_with(2));
    assert_eq!(reg.connected_peers(), 0);
    {
        let entry = reg.get_mut(&id_with(1)).expect("entry must be present");
        entry.context = Some(context());
    }
    assert!(reg.is_connected(&id_with(1)));
    assert!(!reg.is_connected(&id_with(2)));
    assert!(!reg.is_connected(&id_with(3)));
    assert_eq!(reg.connected_peers(), 1);
    {
        let entry = reg.get_mut(&id_with(1)).expect("entry must be present");
        entry.context = None;
    }
    assert!(!reg.is_connected(&id_with(1)));
    assert_eq!(reg.connected_peers(), 0);
}

#[test]
fn connected_count_saturates_at_255() {
    let mut reg = HashMapPeerManager::new();
    for i in 0..300u32 {
        let mut bytes = [0u8; 64];
        bytes[0] = (i % 256) as u8;
        bytes[1] = (i / 256) as u8;
        let id = PeerId::new(bytes);
        reg.add(Arc::new(Peer::new(id, [0; 64])));
        let entry = reg.get_mut(&id).expect("entry must be present");
        entry.context = Some(context());
    }
    assert_eq!(reg.connected_peers(), 255);
}

#[test]
fn fairness_single_match_found_in_one_call() {
    let mut reg = VecPeerManager::new();
    reg.add(peer_with(10));
    reg.add(peer_with(20));
    reg.add(peer_with(30));
    let wanted = id_with(20);
    // each call starts its scan at a different cursor position, and each
    // finds the single matching peer within that one call
    for _ in 0..5 {
        let found = reg.fair_find(|p: &Peer| *p.id() == wanted);
        assert_eq!(found, Some(wanted));
    }
}

#[test]
fn fair_find_rotates_over_calls() {
    let mut reg = VecPeerManager::new();
    reg.add(peer_with(1));
    reg.add(peer_with(2));
    reg.add(peer_with(3));
    // entries are sorted by id; the cursor starts at zero and advances by
    // one per probe, and an always-true predicate stops at the first probe
    let first = reg.fair_find(|_p: &Peer| true).unwrap();
    let second = reg.fair_find(|_p: &Peer| true).unwrap();
    let third = reg.fair_find(|_p: &Peer| true).unwrap();
    assert_eq!(first, id_with(1));
    assert_eq!(second, id_with(2));
    assert_eq!(third, id_with(3));
}

#[test]
fn fair_find_skips_non_matching_probes() {
    let mut reg = VecPeerManager::new();
    reg.add(peer_with(1));
    reg.add(peer_with(2));
    let wanted = id_with(2);
    // both calls match only peer 2, wherever the cursor starts
    assert_eq!(reg.fair_find(|p: &Peer| *p.id() == wanted), Some(wanted));
    assert_eq!(reg.fair_find(|p: &Peer| *p.id() == wanted), Some(wanted));
}

#[test]
fn for_each_visits_every_pair() {
    let mut reg = BTreeMapPeerManager::new();
    reg.add(peer_with(4));
    reg.add(peer_with(2));
    reg.add(peer_with(9));
    let seen: RefCell<Vec<u8>> = RefCell::new(Vec::new());
    reg.for_each(|id: &PeerId, p: &Peer| {
        assert_eq!(*id, *p.id());
        seen.borrow_mut().push(id.bytes()[0]);
    });
    let mut seen = seen.into_inner();
    seen.sort();
    assert_eq!(seen, vec![2, 4, 9]);
}

#[test]
fn get_all_returns_every_peer_btree() {
    let mut reg = BTreeMapPeerManager::new();
    reg.add(peer_with(7));
    reg.add(peer_with(1));
    reg.add(peer_with(4));
    let all = reg.get_all();
    assert_eq!(all.len(), 3);
    let mut firsts: Vec<u8> = all.iter().map(|p| p.id().bytes()[0]).collect();
    firsts.sort();
    assert_eq!(firsts, vec![1, 4, 7]);
}

#[test]
fn get_mut_sets_and_clears_context_btree() {
    let mut reg = BTreeMapPeerManager::new();
    reg.add(peer_with(5));
    assert!(!reg.is_connected(&id_with(5)));
    {
        let entry = reg.get_mut(&id_with(5)).expect("entry must be present");
        entry.context = Some(context());
    }
    assert!(reg.is_connected(&id_with(5)));
    assert_eq!(reg.connected_peers(), 1);
    {
        let entry = reg.get_mut(&id_with(5)).expect("entry must be present");
        entry.context = None;
    }
    assert!(!reg.is_connected(&id_with(5)));
    assert_eq!(reg.connected_peers(), 0);
    assert!(reg.get_mut(&id_with(6)).is_none());
}

#[test]
fn peer_id_equality_and_randomness() {
    assert_eq!(id_with(1), id_with(1));
    assert_ne!(id_with(1), id_with(2));
    let a = PeerId::random();
    let b = PeerId::random();
    assert_ne!(a, b);
    let p = Peer::random();
    assert_eq!(*p.id(), *p.id());
}
