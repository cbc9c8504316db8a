use tracker::Identity;
use tracker::idset::sort_dedup;
use tracker::order::bytes_eq;
use tracker::order::bytes_lt;
use tracker::tracker::Address;
use tracker::tracker::BitVec;
use tracker::tracker::PeerInfo;
use tracker::tracker::Tracker;

fn ident(bytes: &[u8]) -> Identity {
    Identity::new(bytes.to_vec())
}

fn addr(ip: u128, port: u16) -> Address {
    Address { ip, port }
}

fn set_bytes(t: &Tracker, index: u64) -> Option<Vec<Vec<u8>>> {
    t.authorized_set(index).map(|v| v.iter().map(|i| i.bytes.clone()).collect())
}

#[test]
fn lex_order_on_bytes() {
    assert!(bytes_lt(&vec![], &vec![1]));
    assert!(bytes_lt(&vec![1, 2], &vec![1, 2, 0]));
    assert!(bytes_lt(&vec![1, 2], &vec![1, 3]));
    assert!(!bytes_lt(&vec![1, 3], &vec![1, 2]));
    assert!(!bytes_lt(&vec![2], &vec![2]));
    assert!(bytes_eq(&vec![7, 8], &vec![7, 8]));
    assert!(!bytes_eq(&vec![7, 8], &vec![7, 9]));
    assert!(!bytes_eq(&vec![7], &vec![7, 0]));
}

#[test]
fn sort_dedup_normalizes_input() {
    let c = ident(&[3]);
    let a = ident(&[1]);
    let b = ident(&[2]);
    let a2 = ident(&[1]);
    let sorted = sort_dedup(vec![c, a, b, a2]);
    let bytes: Vec<Vec<u8>> = sorted.iter().map(|i| i.bytes.clone()).collect();
    assert_eq!(bytes, vec![vec![1], vec![2], vec![3]]);
}

#[test]
fn register_stores_sorted_dedup_set() {
    let mut t = Tracker::new(4);
    t.register(1, vec![ident(&[3]), ident(&[1]), ident(&[2]), ident(&[1])]);
    assert_eq!(set_bytes(&t, 1), Some(vec![vec![1], vec![2], vec![3]]));
    assert_eq!(set_bytes(&t, 2), None);
}

#[test]
fn register_replaces_set_at_same_index() {
    let mut t = Tracker::new(4);
    t.register(1, vec![ident(&[1])]);
    t.register(1, vec![ident(&[9])]);
    assert_eq!(set_bytes(&t, 1), Some(vec![vec![9]]));
}

#[test]
fn register_evicts_oldest_epoch() {
    let mut t = Tracker::new(2);
    t.register(1, vec![ident(&[1])]);
    t.register(2, vec![ident(&[2])]);
    t.peers(vec![
        PeerInfo { id: ident(&[1]), address: addr(10, 80) },
        PeerInfo { id: ident(&[2]), address: addr(11, 81) },
    ]);
    t.register(3, vec![ident(&[3])]);
    assert_eq!(set_bytes(&t, 1), None);
    assert!(set_bytes(&t, 2).is_some());
    assert!(set_bytes(&t, 3).is_some());
    // the identity of the evicted epoch is no longer authorized, though
    // its record is still there
    assert!(!t.reserve(&ident(&[1])));
    assert!(t.reserve(&ident(&[2])));
}

#[test]
fn reserve_rejects_unregistered_identities() {
    let mut t = Tracker::new(4);
    assert!(!t.reserve(&ident(&[1])));
    t.register(1, vec![ident(&[1])]);
    t.peers(vec![PeerInfo { id: ident(&[1]), address: addr(10, 80) }]);
    // known but never registered: refused
    assert!(!t.reserve(&ident(&[2])));
    assert!(t.reserve(&ident(&[1])));
}

#[test]
fn reserve_requires_existing_record() {
    let mut t = Tracker::new(4);
    let p = ident(&[1]);
    t.register(1, vec![p.duplicate()]);
    // authorized but unknown: no construct, peers or bit-vector message has
    // created a record yet, so the claim is refused
    assert!(!t.reserve(&p));
    t.peers(vec![PeerInfo { id: p.duplicate(), address: addr(10, 80) }]);
    assert!(t.reserve(&p));
}

#[test]
fn reserve_is_exclusive_until_release() {
    let mut t = Tracker::new(4);
    let p = ident(&[5]);
    t.register(1, vec![p.duplicate()]);
    t.peers(vec![PeerInfo { id: p.duplicate(), address: addr(10, 80) }]);
    assert!(t.reserve(&p));
    assert!(t.reserved_for(&p));
    // a second reserve while the first is live yields nothing
    assert!(!t.reserve(&p));
    t.release(&p);
    assert!(!t.reserved_for(&p));
    assert!(t.reserve(&p));
}

#[test]
fn release_without_reservation_is_noop() {
    let mut t = Tracker::new(4);
    let p = ident(&[5]);
    t.release(&p);
    t.register(1, vec![p.duplicate()]);
    t.peers(vec![PeerInfo { id: p.duplicate(), address: addr(10, 80) }]);
    t.release(&p);
    assert!(!t.reserved_for(&p));
    // the identity is still grantable afterwards
    assert!(t.reserve(&p));
}

#[test]
fn construct_rejects_unauthorized() {
    let mut t = Tracker::new(4);
    assert!(!t.construct(&ident(&[1])));
    t.register(1, vec![ident(&[1])]);
    assert!(t.construct(&ident(&[1])));
}

#[test]
fn connected_peer_is_not_dialable() {
    let mut t = Tracker::new(4);
    let p = ident(&[1]);
    t.register(1, vec![p.duplicate()]);
    t.peers(vec![PeerInfo { id: p.duplicate(), address: addr(10, 80) }]);
    assert!(t.construct(&p));
    assert!(t.dialable().is_empty());
    assert!(!t.reserve(&p));
}

#[test]
fn peers_keeps_last_address_and_drops_unauthorized() {
    let mut t = Tracker::new(4);
    let a = ident(&[1]);
    let z = ident(&[9]);
    t.register(1, vec![a.duplicate()]);
    t.peers(vec![
        PeerInfo { id: a.duplicate(), address: addr(10, 80) },
        PeerInfo { id: z.duplicate(), address: addr(11, 81) },
        PeerInfo { id: a.duplicate(), address: addr(12, 82) },
    ]);
    let out = t.dialable();
    assert_eq!(out.len(), 1);
    assert_eq!(out[0].id.bytes, vec![1]);
    assert_eq!(out[0].address, addr(12, 82));
}

#[test]
fn dialable_reserves_atomically() {
    let mut t = Tracker::new(4);
    let a = ident(&[1]);
    let b = ident(&[2]);
    t.register(1, vec![a.duplicate(), b.duplicate()]);
    t.peers(vec![
        PeerInfo { id: a.duplicate(), address: addr(10, 80) },
        PeerInfo { id: b.duplicate(), address: addr(11, 81) },
    ]);
    let out = t.dialable();
    assert_eq!(out.len(), 2);
    assert!(t.reserved_for(&a));
    assert!(t.reserved_for(&b));
    // everything handed out is reserved, so a second call yields nothing
    assert!(t.dialable().is_empty());
}

#[test]
fn malformed_bit_vec_changes_nothing() {
    let mut t = Tracker::new(4);
    let a = ident(&[1]);
    let b = ident(&[2]);
    t.register(1, vec![a.duplicate(), b.duplicate()]);
    assert!(t.construct(&a));
    // wrong length: the epoch's set has two members
    let reply = t.bit_vec(&a, BitVec { index: 1, bits: vec![false, false, false] });
    assert!(reply.is_none());
    assert!(t.knowledge_of(&a).is_none());
    // unretained epoch index: also dropped
    let reply = t.bit_vec(&a, BitVec { index: 7, bits: vec![false, false] });
    assert!(reply.is_none());
    assert!(t.knowledge_of(&a).is_none());
    // no new addresses or reservations appeared
    assert!(t.dialable().is_empty());
    assert!(!t.reserved_for(&a));
    assert!(!t.reserved_for(&b));
}

#[test]
fn bit_vec_merges_and_replies_with_missing_addresses() {
    let mut t = Tracker::new(4);
    let a = ident(&[1]);
    let b = ident(&[2]);
    t.register(1, vec![b.duplicate(), a.duplicate()]);
    t.peers(vec![PeerInfo { id: b.duplicate(), address: addr(11, 81) }]);
    assert!(t.construct(&a));
    // `a` knows nothing: both bits clear; only `b` has a known address
    let reply = t.bit_vec(&a, BitVec { index: 1, bits: vec![false, false] });
    let reply = reply.expect("well-formed payload accepted");
    assert_eq!(reply.len(), 1);
    assert_eq!(reply[0].id.bytes, vec![2]);
    assert_eq!(reply[0].address, addr(11, 81));
    let known = t.knowledge_of(&a).expect("merged into the gossip record");
    assert_eq!(known.index, 1);
    assert_eq!(known.bits, vec![false, false]);
    // bits already set produce no reply entries
    let reply = t.bit_vec(&a, BitVec { index: 1, bits: vec![true, true] });
    assert_eq!(reply.expect("accepted").len(), 0);
}

#[test]
fn bit_vec_from_unknown_reporter_is_dropped() {
    let mut t = Tracker::new(4);
    let a = ident(&[1]);
    t.register(1, vec![a.duplicate()]);
    let reply = t.bit_vec(&a, BitVec { index: 1, bits: vec![false] });
    assert!(reply.is_none());
}

#[test]
fn end_to_end_discovery_scenario() {
    let mut t = Tracker::new(4);
    let a = ident(&[1]);
    let b = ident(&[2]);
    // the oracle registers [B, A]; the tracker stores [A, B]
    t.register(1, vec![b.duplicate(), a.duplicate()]);
    assert_eq!(set_bytes(&t, 1), Some(vec![vec![1], vec![2]]));
    // no addresses known yet: nothing to dial
    assert!(t.dialable().is_empty());
    // a peer announces an address for A
    t.peers(vec![PeerInfo { id: a.duplicate(), address: addr(10, 80) }]);
    // now A is dialable, and the entry carries a live reservation
    let out = t.dialable();
    assert_eq!(out.len(), 1);
    assert_eq!(out[0].id.bytes, vec![1]);
    assert_eq!(out[0].address, addr(10, 80));
    // a concurrent inbound claim for A is refused
    assert!(!t.reserve(&a));
    // dropping the reservation delivers a release; A is grantable again
    t.release(&a);
    assert!(t.reserve(&a));
}

#[test]
fn register_empty_set_is_stored() {
    let mut t = Tracker::new(4);
    t.register(1, vec![]);
    assert_eq!(set_bytes(&t, 1), Some(vec![]));
    assert!(!t.reserve(&ident(&[1])));
}

#[test]
fn single_slot_window_keeps_only_latest() {
    let mut t = Tracker::new(1);
    t.register(1, vec![ident(&[1])]);
    t.register(2, vec![ident(&[2])]);
    assert_eq!(set_bytes(&t, 1), None);
    assert_eq!(set_bytes(&t, 2), Some(vec![vec![2]]));
}

#[test]
fn empty_bit_vec_matches_empty_epoch() {
    let mut t = Tracker::new(4);
    let a = ident(&[1]);
    t.register(1, vec![a.duplicate()]);
    t.register(2, vec![]);
    assert!(t.construct(&a));
    // the empty epoch accepts only the empty payload
    let reply = t.bit_vec(&a, BitVec { index: 2, bits: vec![] });
    assert_eq!(reply.expect("accepted").len(), 0);
    let reply = t.bit_vec(&a, BitVec { index: 2, bits: vec![false] });
    assert!(reply.is_none());
}
