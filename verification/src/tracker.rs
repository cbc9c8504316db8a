//! The tracker state machine: authorization epochs, peer records and
//! reservations.
//!
//! The tracker is driven one request at a time by whatever runtime owns it;
//! each method here is one request handler. Mutual exclusion of connection
//! attempts comes from the `reserved` flag: a reservation is granted only
//! when no other one for the same identity is live.

use vstd::prelude::*;
use crate::idset::views;
use crate::idset::contains_id;
use crate::order::bytes_eq;
use crate::store::AuthStore;
use crate::store::register_post;
use crate::Identity;

verus! {

/// A peer's last-known network address, as plain values.
#[derive(Clone, Copy, Debug, PartialEq, Eq, Structural)]
pub struct Address {
    /// The IP address, encoded as an integer.
    pub ip: u128,
    /// The transport port.
    pub port: u16,
}

/// An identity together with its announced address.
pub struct PeerInfo {
    pub id: Identity,
    pub address: Address,
}

/// A peer's belief about the dialability of the authorized set of one epoch,
/// one bit per position in that epoch's sorted authorized sequence.
pub struct BitVec {
    /// The epoch index the bits refer to.
    pub index: u64,
    /// One bit per identity of that epoch's authorized set.
    pub bits: Vec<bool>,
}

/// Everything the tracker knows about one identity.
pub struct PeerRecord {
    pub id: Identity,
    /// Last-known address, if any peer announced one.
    pub address: Option<Address>,
    /// Whether a connection attempt for this identity is in flight.
    pub reserved: bool,
    /// Whether a live connection currently represents this identity.
    pub connected: bool,
    /// The peer's last accepted gossip bit vector.
    pub knowledge: Option<BitVec>,
}

/// The tracker's whole state: the epoch window and the per-peer records.
///
/// Records are kept once created, also after the epochs that authorized
/// their identities leave the window: every grant re-checks authorization
/// against the retained epochs, so a stale record can never admit a peer.
pub struct Tracker {
    pub store: AuthStore,
    pub records: Vec<PeerRecord>,
}

/// The identity/address pairs of a sequence of peer infos.
pub open spec fn info_views(s: Seq<PeerInfo>) -> Seq<(Seq<u8>, Address)> {
    s.map_values(|p: PeerInfo| (p.id@, p.address))
}

impl Tracker {
    /// Well-formedness: the store is well-formed and no identity has two
    /// records.
    pub open spec fn wf(self) -> bool {
        &&& self.store.wf()
        &&& forall|i: int, j: int|
            0 <= i < j < self.records@.len() ==> self.records@[i].id@ != self.records@[j].id@
    }

    /// Whether a record exists for identity `x`.
    pub open spec fn has_record(self, x: Seq<u8>) -> bool {
        exists|i: int| 0 <= i < self.records@.len() && self.records@[i].id@ == x
    }

    /// Position of the record for `x`.
    pub open spec fn rec_pos(self, x: Seq<u8>) -> int {
        choose|i: int| 0 <= i < self.records@.len() && self.records@[i].id@ == x
    }

    /// The record for `x`.
    pub open spec fn rec_at(self, x: Seq<u8>) -> PeerRecord {
        self.records@[self.rec_pos(x)]
    }

    /// Whether a reservation for `x` is live.
    pub open spec fn is_reserved(self, x: Seq<u8>) -> bool {
        self.has_record(x) && self.rec_at(x).reserved
    }

    /// Whether a live connection represents `x`.
    pub open spec fn is_connected(self, x: Seq<u8>) -> bool {
        self.has_record(x) && self.rec_at(x).connected
    }

    /// Whether `x` is authorized by some retained epoch.
    pub open spec fn authorized(self, x: Seq<u8>) -> bool {
        self.store.authorized(x)
    }

    /// Whether a reservation request for `x` would be granted: authorized,
    /// known (a peer record exists), not reserved, not already connected.
    ///
    /// An unknown identity is refused even when authorized: records are
    /// created by the construct, peers and bit-vector paths, never by a
    /// reservation request. A connected-but-unreserved peer is refused too:
    /// a live connection counts as the one attempt in flight for that peer.
    pub open spec fn grants_reservation(self, x: Seq<u8>) -> bool {
        &&& self.authorized(x)
        &&& self.has_record(x)
        &&& !self.is_reserved(x)
        &&& !self.is_connected(x)
    }

    /// Whether `x` is a dial target: a reservation would be granted and an
    /// address is known.
    pub open spec fn dial_candidate(self, x: Seq<u8>) -> bool {
        &&& self.grants_reservation(x)
        &&& self.rec_at(x).address is Some
    }

    /// The record for a known identity sits at a unique position.
    pub proof fn lemma_rec_pos(self, x: Seq<u8>)
        requires
            self.wf(),
            self.has_record(x),
        ensures
            0 <= self.rec_pos(x) < self.records@.len(),
            self.records@[self.rec_pos(x)].id@ == x,
            forall|k: int|
                0 <= k < self.records@.len() && self.records@[k].id@ == x ==> k == self.rec_pos(
                    x,
                ),
    {
        let p = self.rec_pos(x);
        assert(0 <= p < self.records@.len() && self.records@[p].id@ == x);
    }

    /// An empty tracker with the given epoch retention bound.
    pub fn new(max_sets: usize) -> (r: Tracker)
        requires
            max_sets >= 1,
        ensures
            r.wf(),
            r.records@.len() == 0,
            r.store.max_sets == max_sets,
            r.store.sets@.len() == 0,
            forall|x: Seq<u8>| !r.authorized(x),
            forall|x: Seq<u8>| !r.has_record(x),
    {
        Tracker { store: AuthStore::new(max_sets), records: Vec::new() }
    }

    /// Store the authorized set for an epoch index. Records are untouched.
    pub fn register(&mut self, index: u64, ids: Vec<Identity>)
        requires
            old(self).wf(),
        ensures
            final(self).wf(),
            register_post(old(self).store, final(self).store, index, views(ids@)),
            final(self).records == old(self).records,
    {
        self.store.register(index, ids);
    }
}

/// `x` is recorded the same way in `a` and `b`.
pub open spec fn same_record(a: Tracker, b: Tracker, x: Seq<u8>) -> bool {
    &&& a.has_record(x) <==> b.has_record(x)
    &&& a.has_record(x) ==> a.rec_at(x) == b.rec_at(x)
}

/// Find the position of the record for `id`.
fn find_record(records: &Vec<PeerRecord>, id: &Identity) -> (r: Option<usize>)
    ensures
        r is Some ==> r.unwrap() < records@.len() && records@[r.unwrap() as int].id@ == id@,
        r is None ==> forall|k: int| 0 <= k < records@.len() ==> records@[k].id@ != id@,
{
    let mut i: usize = 0;
    while i < records.len()
        invariant
            i <= records@.len(),
            forall|k: int| 0 <= k < i ==> records@[k].id@ != id@,
        decreases records@.len() - i,
    {
        if bytes_eq(&records[i].id.bytes, &id.bytes) {
            return Some(i);
        }
        i = i + 1;
    }
    None
}

/// Replace the record at `i` after toggling its reservation flag.
fn set_reserved(records: &mut Vec<PeerRecord>, i: usize, val: bool)
    requires
        i < old(records).len(),
    ensures
        final(records)@ == old(records)@.update(
            i as int,
            (PeerRecord { reserved: val, ..old(records)@[i as int] }),
        ),
{
    let ghost pre = records@;
    let mut r = records.remove(i);
    r.reserved = val;
    records.insert(i, r);
    proof {
        pre.remove_ensures(i as int);
        pre.remove(i as int).insert_ensures(i as int, r);
        assert(records@ =~= pre.update(i as int, r));
    }
}

/// Replace the record at `i` after clearing both its reservation and its
/// connection flag.
fn set_dropped(records: &mut Vec<PeerRecord>, i: usize)
    requires
        i < old(records).len(),
    ensures
        final(records)@ == old(records)@.update(
            i as int,
            (PeerRecord { reserved: false, connected: false, ..old(records)@[i as int] }),
        ),
{
    let ghost pre = records@;
    let mut r = records.remove(i);
    r.reserved = false;
    r.connected = false;
    records.insert(i, r);
    proof {
        pre.remove_ensures(i as int);
        pre.remove(i as int).insert_ensures(i as int, r);
        assert(records@ =~= pre.update(i as int, r));
    }
}

/// Replace the record at `i` after marking it connected.
fn set_connected(records: &mut Vec<PeerRecord>, i: usize)
    requires
        i < old(records).len(),
    ensures
        final(records)@ == old(records)@.update(
            i as int,
            (PeerRecord { connected: true, ..old(records)@[i as int] }),
        ),
{
    let ghost pre = records@;
    let mut r = records.remove(i);
    r.connected = true;
    records.insert(i, r);
    proof {
        pre.remove_ensures(i as int);
        pre.remove(i as int).insert_ensures(i as int, r);
        assert(records@ =~= pre.update(i as int, r));
    }
}

/// Replace the record at `i` after storing a new address.
fn set_address(records: &mut Vec<PeerRecord>, i: usize, addr: Address)
    requires
        i < old(records).len(),
    ensures
        final(records)@ == old(records)@.update(
            i as int,
            (PeerRecord { address: Some(addr), ..old(records)@[i as int] }),
        ),
{
    let ghost pre = records@;
    let mut r = records.remove(i);
    r.address = Some(addr);
    records.insert(i, r);
    proof {
        pre.remove_ensures(i as int);
        pre.remove(i as int).insert_ensures(i as int, r);
        assert(records@ =~= pre.update(i as int, r));
    }
}

/// Replace the record at `i` after storing a new gossip bit vector.
fn set_knowledge(records: &mut Vec<PeerRecord>, i: usize, bv: BitVec)
    requires
        i < old(records).len(),
    ensures
        final(records)@ == old(records)@.update(
            i as int,
            (PeerRecord { knowledge: Some(bv), ..old(records)@[i as int] }),
        ),
{
    let ghost pre = records@;
    let mut r = records.remove(i);
    r.knowledge = Some(bv);
    records.insert(i, r);
    proof {
        pre.remove_ensures(i as int);
        pre.remove(i as int).insert_ensures(i as int, r);
        assert(records@ =~= pre.update(i as int, r));
    }
}

/// Everything `Tracker::reserve` guarantees: a grant happens exactly when
/// the identity is authorized, known, unreserved and unconnected, and it
/// changes nothing but that one record's reservation flag.
pub open spec fn reserve_post(pre: Tracker, post: Tracker, x: Seq<u8>, granted: bool) -> bool {
    &&& post.wf()
    &&& granted == pre.grants_reservation(x)
    &&& !granted ==> post == pre
    &&& granted ==> {
        &&& post.store == pre.store
        &&& post.has_record(x)
        &&& post.rec_at(x) == (PeerRecord { reserved: true, ..pre.rec_at(x) })
        &&& forall|y: Seq<u8>| y != x ==> same_record(pre, post, y)
    }
}

/// Everything `Tracker::release` guarantees.
///
/// Releasing a live reservation clears the connection flag along with the
/// reservation flag: the reservation's release is the only signal that a
/// connection attempt or connection ended, so this is what makes a
/// once-connected peer dialable again. Address, gossip knowledge, the
/// epoch store and every other record are untouched.
pub open spec fn release_post(pre: Tracker, post: Tracker, x: Seq<u8>) -> bool {
    &&& post.wf()
    // releasing an identity with no live reservation changes nothing
    &&& !pre.is_reserved(x) ==> post == pre
    &&& pre.is_reserved(x) ==> {
        &&& post.store == pre.store
        &&& post.has_record(x)
        &&& post.rec_at(x) == (PeerRecord {
            reserved: false,
            connected: false,
            ..pre.rec_at(x)
        })
        &&& forall|y: Seq<u8>| y != x ==> same_record(pre, post, y)
    }
}

/// Everything `Tracker::construct` guarantees.
pub open spec fn construct_post(pre: Tracker, post: Tracker, x: Seq<u8>, accepted: bool) -> bool {
    &&& post.wf()
    &&& accepted == pre.authorized(x)
    // unauthorized peers are never tracked
    &&& !accepted ==> post == pre
    &&& accepted ==> {
        &&& post.store == pre.store
        &&& post.has_record(x)
        &&& post.rec_at(x) == (PeerRecord {
            connected: true,
            ..(if pre.has_record(x) {
                pre.rec_at(x)
            } else {
                PeerRecord {
                    id: post.rec_at(x).id,
                    address: None,
                    reserved: false,
                    connected: true,
                    knowledge: None,
                }
            })
        })
        &&& post.rec_at(x).id@ == x
        &&& forall|y: Seq<u8>| y != x ==> same_record(pre, post, y)
    }
}

impl Tracker {
    /// Grant a reservation for `id` if it is authorized, known, and neither
    /// reserved nor connected; used when an inbound connection claims `id`.
    /// An identity the tracker has no record of is refused: reservation
    /// requests never create records.
    pub fn reserve(&mut self, id: &Identity) -> (granted: bool)
        requires
            old(self).wf(),
        ensures
            reserve_post(*old(self), *final(self), id@, granted),
    {
        let ghost pre = *old(self);
        if !self.store.is_authorized(id) {
            return false;
        }
        match find_record(&self.records, id) {
            Some(i) => {
                proof {
                    pre.lemma_rec_pos(id@);
                    assert(pre.rec_pos(id@) == i as int);
                }
                if self.records[i].reserved || self.records[i].connected {
                    false
                } else {
                    set_reserved(&mut self.records, i, true);
                    proof {
                        lemma_same_after_update(pre, *self, i as int);
                        assert(self.records@[i as int].id@ == id@);
                        assert(self.has_record(id@));
                        self.lemma_rec_pos(id@);
                        assert(self.rec_pos(id@) == i as int);
                    }
                    true
                }
            },
            None => {
                proof {
                    assert(!pre.has_record(id@));
                }
                false
            },
        }
    }

    /// Clear the reservation for `id`, and with it the connection flag: a
    /// live connection for `id` ends with its reservation, and nothing else
    /// signals that end. A release with no live reservation is a no-op.
    pub fn release(&mut self, id: &Identity)
        requires
            old(self).wf(),
        ensures
            release_post(*old(self), *final(self), id@),
    {
        let ghost pre = *old(self);
        match find_record(&self.records, id) {
            Some(i) => {
                proof {
                    pre.lemma_rec_pos(id@);
                    assert(pre.rec_pos(id@) == i as int);
                }
                if self.records[i].reserved {
                    set_dropped(&mut self.records, i);
                    proof {
                        lemma_same_after_update(pre, *self, i as int);
                        assert(self.records@[i as int].id@ == id@);
                        assert(self.has_record(id@));
                        self.lemma_rec_pos(id@);
                        assert(self.rec_pos(id@) == i as int);
                    }
                }
            },
            None => {},
        }
    }

    /// Record that a live connection now represents `id`; rejected unless
    /// `id` is authorized.
    pub fn construct(&mut self, id: &Identity) -> (accepted: bool)
        requires
            old(self).wf(),
        ensures
            construct_post(*old(self), *final(self), id@, accepted),
    {
        let ghost pre = *old(self);
        if !self.store.is_authorized(id) {
            return false;
        }
        match find_record(&self.records, id) {
            Some(i) => {
                proof {
                    pre.lemma_rec_pos(id@);
                    assert(pre.rec_pos(id@) == i as int);
                }
                set_connected(&mut self.records, i);
                proof {
                    lemma_same_after_update(pre, *self, i as int);
                    assert(self.records@[i as int].id@ == id@);
                    assert(self.has_record(id@));
                    self.lemma_rec_pos(id@);
                    assert(self.rec_pos(id@) == i as int);
                }
            },
            None => {
                let rec = PeerRecord {
                    id: id.duplicate(),
                    address: None,
                    reserved: false,
                    connected: true,
                    knowledge: None,
                };
                self.records.push(rec);
                proof {
                    let n = pre.records@.len() as int;
                    assert(self.records@ =~= pre.records@.push(rec));
                    assert(self.records@[n].id@ == id@);
                    assert(self.has_record(id@));
                    assert(self.wf());
                    self.lemma_rec_pos(id@);
                    assert(self.rec_pos(id@) == n);
                    assert forall|y: Seq<u8>| y != id@ implies same_record(pre, *self, y) by {
                        lemma_same_after_push(pre, *self, y);
                    }
                }
            },
        }
        true
    }
}

/// The address paired with the last occurrence of `x` in `infos`, if any.
pub open spec fn last_addr(infos: Seq<PeerInfo>, x: Seq<u8>) -> Option<Address>
    decreases infos.len(),
{
    if infos.len() == 0 {
        None
    } else if infos.last().id@ == x {
        Some(infos.last().address)
    } else {
        last_addr(infos.drop_last(), x)
    }
}

/// Everything `Tracker::peers` guarantees: for every authorized identity the
/// message names, the last announced address is stored; nothing else moves.
pub open spec fn peers_post(pre: Tracker, post: Tracker, infos: Seq<PeerInfo>) -> bool {
    &&& post.wf()
    &&& post.store == pre.store
    &&& forall|x: Seq<u8>|
        #![trigger last_addr(infos, x)]
        last_addr(infos, x) is None || !pre.authorized(x) ==> same_record(pre, post, x)
    &&& forall|x: Seq<u8>|
        #![trigger last_addr(infos, x)]
        last_addr(infos, x) is Some && pre.authorized(x) ==> {
            &&& post.has_record(x)
            &&& post.rec_at(x).id@ == x
            &&& post.rec_at(x).address == last_addr(infos, x)
            &&& post.rec_at(x).reserved == (if pre.has_record(x) {
                pre.rec_at(x).reserved
            } else {
                false
            })
            &&& post.rec_at(x).connected == (if pre.has_record(x) {
                pre.rec_at(x).connected
            } else {
                false
            })
            &&& post.rec_at(x).knowledge == (if pre.has_record(x) {
                pre.rec_at(x).knowledge
            } else {
                Option::<BitVec>::None
            })
        }
}

/// Moving from prefix `k` to prefix `k + 1` either rebinds the address of
/// the identity named at position `k` or changes nothing.
proof fn lemma_last_addr_step(s: Seq<PeerInfo>, k: int, x: Seq<u8>)
    requires
        0 <= k < s.len(),
    ensures
        last_addr(s.take(k + 1), x) == (if s[k].id@ == x {
            Some(s[k].address)
        } else {
            last_addr(s.take(k), x)
        }),
{
    assert(s.take(k + 1).last() == s[k]);
    assert(s.take(k + 1).drop_last() =~= s.take(k));
}

impl Tracker {
    /// Store `info`'s address for its identity, if that identity is
    /// authorized; creates the record if needed.
    fn upsert_address(&mut self, info: PeerInfo)
        requires
            old(self).wf(),
        ensures
            final(self).wf(),
            final(self).store == old(self).store,
            !old(self).authorized(info.id@) ==> *final(self) == *old(self),
            old(self).authorized(info.id@) ==> {
                &&& final(self).has_record(info.id@)
                &&& final(self).rec_at(info.id@).id@ == info.id@
                &&& final(self).rec_at(info.id@).address == Some(info.address)
                &&& final(self).rec_at(info.id@).reserved == (if old(self).has_record(info.id@) {
                    old(self).rec_at(info.id@).reserved
                } else {
                    false
                })
                &&& final(self).rec_at(info.id@).connected == (if old(self).has_record(info.id@) {
                    old(self).rec_at(info.id@).connected
                } else {
                    false
                })
                &&& final(self).rec_at(info.id@).knowledge == (if old(self).has_record(info.id@) {
                    old(self).rec_at(info.id@).knowledge
                } else {
                    Option::<BitVec>::None
                })
                &&& forall|y: Seq<u8>| y != info.id@ ==> same_record(*old(self), *final(self), y)
            },
    {
        let ghost pre = *old(self);
        if !self.store.is_authorized(&info.id) {
            return ;
        }
        match find_record(&self.records, &info.id) {
            Some(i) => {
                proof {
                    pre.lemma_rec_pos(info.id@);
                    assert(pre.rec_pos(info.id@) == i as int);
                }
                set_address(&mut self.records, i, info.address);
                proof {
                    lemma_same_after_update(pre, *self, i as int);
                    assert(self.records@[i as int].id@ == info.id@);
                    assert(self.has_record(info.id@));
                    self.lemma_rec_pos(info.id@);
                    assert(self.rec_pos(info.id@) == i as int);
                }
            },
            None => {
                let rec = PeerRecord {
                    id: info.id,
                    address: Some(info.address),
                    reserved: false,
                    connected: false,
                    knowledge: None,
                };
                let ghost x = rec.id@;
                self.records.push(rec);
                proof {
                    let n = pre.records@.len() as int;
                    assert(self.records@ =~= pre.records@.push(rec));
                    assert(self.records@[n].id@ == x);
                    assert(self.has_record(x));
                    assert(self.wf());
                    self.lemma_rec_pos(x);
                    assert(self.rec_pos(x) == n);
                    assert forall|y: Seq<u8>| y != x implies same_record(pre, *self, y) by {
                        lemma_same_after_push(pre, *self, y);
                    }
                }
            },
        }
    }

    /// Merge a peer-address announcement: for each named identity, in order,
    /// store its address if the identity is authorized; announcements for
    /// unauthorized identities are discarded.
    pub fn peers(&mut self, infos: Vec<PeerInfo>)
        requires
            old(self).wf(),
        ensures
            peers_post(*old(self), *final(self), infos@),
    {
        let ghost pre = *old(self);
        let ghost input = infos@;
        let mut rest = infos;
        proof {
            assert(input.take(0) =~= Seq::<PeerInfo>::empty());
        }
        while rest.len() > 0
            invariant
                pre.wf(),
                rest@.len() <= input.len(),
                rest@ == input.skip(input.len() - rest@.len()),
                peers_post(pre, *self, input.take(input.len() - rest@.len())),
            decreases rest.len(),
        {
            let ghost done = input.len() - rest@.len();
            let ghost cur = *self;
            let info = rest.remove(0);
            proof {
                assert(info == input[done]);
                assert(rest@ =~= input.skip(done + 1));
            }
            let ghost x0 = info.id@;
            self.upsert_address(info);
            proof {
                let t0 = input.take(done);
                let t1 = input.take(done + 1);
                assert(peers_post(pre, cur, t0));
                assert forall|x: Seq<u8>|
                    #![trigger last_addr(t1, x)]
                last_addr(t1, x) is None || !pre.authorized(
                    x,
                ) implies same_record(pre, *self, x) by {
                    lemma_last_addr_step(input, done, x);
                    let la0 = last_addr(t0, x);
                    if x == x0 {
                        // the step named x, so rejection means unauthorized
                        assert(!pre.authorized(x));
                        assert(la0 is None || !pre.authorized(x));
                        assert(same_record(pre, cur, x));
                        assert(*self == cur);
                    } else {
                        assert(last_addr(t0, x) == last_addr(t1, x));
                        assert(same_record(pre, cur, x));
                        assert(same_record(cur, *self, x));
                    }
                }
                assert forall|x: Seq<u8>|
                    #![trigger last_addr(t1, x)]
                last_addr(t1, x) is Some && pre.authorized(
                    x,
                ) implies {
                    &&& self.has_record(x)
                    &&& self.rec_at(x).id@ == x
                    &&& self.rec_at(x).address == last_addr(t1, x)
                    &&& self.rec_at(x).reserved == (if pre.has_record(x) {
                        pre.rec_at(x).reserved
                    } else {
                        false
                    })
                    &&& self.rec_at(x).connected == (if pre.has_record(x) {
                        pre.rec_at(x).connected
                    } else {
                        false
                    })
                    &&& self.rec_at(x).knowledge == (if pre.has_record(x) {
                        pre.rec_at(x).knowledge
                    } else {
                        Option::<BitVec>::None
                    })
                } by {
                    lemma_last_addr_step(input, done, x);
                    let la0 = last_addr(t0, x);
                    if x == x0 {
                        if la0 is Some {
                            assert(cur.has_record(x));
                        } else {
                            assert(la0 is None);
                            assert(same_record(pre, cur, x));
                        }
                    } else {
                        assert(last_addr(t0, x) == last_addr(t1, x));
                        assert(same_record(cur, *self, x));
                    }
                }
                assert(input.len() - rest@.len() == done + 1);
                assert(peers_post(pre, *self, t1));
            }
        }
        proof {
            assert(input.take(input.len() as int) =~= input);
        }
    }
}

/// Whether the tracker accepts a gossip bit vector from `origin` against
/// epoch `index`: the reporter is known, the epoch is retained, and the
/// payload length matches the epoch's authorized set.
pub open spec fn bitvec_accepted(
    pre: Tracker,
    origin: Seq<u8>,
    index: u64,
    bits: Seq<bool>,
) -> bool {
    &&& pre.has_record(origin)
    &&& pre.store.has_index(index)
    &&& bits.len() == pre.store.set_at(index).len()
}

/// The gossip reply over the first `k` positions: for each position whose
/// bit is clear, the address the tracker knows for that identity.
pub open spec fn reply_upto(
    pre: Tracker,
    ids: Seq<Seq<u8>>,
    bits: Seq<bool>,
    k: int,
) -> Seq<(Seq<u8>, Address)>
    decreases k,
{
    if k <= 0 {
        Seq::empty()
    } else {
        let rest = reply_upto(pre, ids, bits, k - 1);
        let x = ids[k - 1];
        if !bits[k - 1] && pre.has_record(x) && pre.rec_at(x).address is Some {
            rest.push((x, pre.rec_at(x).address.unwrap()))
        } else {
            rest
        }
    }
}

/// The identity/address pairs of an optional reply.
pub open spec fn reply_views(r: Option<Vec<PeerInfo>>) -> Option<Seq<(Seq<u8>, Address)>> {
    match r {
        Some(v) => Some(info_views(v@)),
        None => None,
    }
}

/// Everything `Tracker::bit_vec` guarantees.
pub open spec fn bitvec_post(
    pre: Tracker,
    post: Tracker,
    origin: Seq<u8>,
    index: u64,
    bits: Seq<bool>,
    reply: Option<Seq<(Seq<u8>, Address)>>,
) -> bool {
    &&& post.wf()
    // a malformed or unattributable payload is dropped without mutation
    &&& !bitvec_accepted(pre, origin, index, bits) ==> post == pre && reply is None
    &&& bitvec_accepted(pre, origin, index, bits) ==> {
        &&& post.store == pre.store
        &&& reply is Some
        &&& reply.unwrap() == reply_upto(pre, pre.store.set_at(index), bits, bits.len() as int)
        &&& post.has_record(origin)
        &&& post.rec_at(origin) == (PeerRecord {
            knowledge: post.rec_at(origin).knowledge,
            ..pre.rec_at(origin)
        })
        &&& post.rec_at(origin).knowledge is Some
        &&& post.rec_at(origin).knowledge.unwrap().index == index
        &&& post.rec_at(origin).knowledge.unwrap().bits@ == bits
        &&& forall|y: Seq<u8>| y != origin ==> same_record(pre, post, y)
    }
}

/// Whether a record is a dial target: authorized, address known, neither
/// reserved nor connected.
pub open spec fn dial_rec(r: PeerRecord, st: AuthStore) -> bool {
    &&& st.authorized(r.id@)
    &&& r.address is Some
    &&& !r.reserved
    &&& !r.connected
}

/// The dial list over the first `k` records, in record order.
pub open spec fn dial_upto(pre: Tracker, k: int) -> Seq<(Seq<u8>, Address)>
    decreases k,
{
    if k <= 0 {
        Seq::empty()
    } else {
        let rest = dial_upto(pre, k - 1);
        let r = pre.records@[k - 1];
        if dial_rec(r, pre.store) {
            rest.push((r.id@, r.address.unwrap()))
        } else {
            rest
        }
    }
}

/// Whether `e` is the dial entry of some eligible record below position `k`.
pub open spec fn entry_from(pre: Tracker, k: int, e: (Seq<u8>, Address)) -> bool {
    exists|p: int|
        0 <= p < k && (#[trigger] pre.records@[p]).id@ == e.0 && dial_rec(
            pre.records@[p],
            pre.store,
        ) && e.1 == pre.records@[p].address.unwrap()
}

/// Each dial-list entry comes from an eligible record, every eligible record
/// contributes an entry, and no identity appears twice.
proof fn lemma_dial_upto(pre: Tracker, k: int)
    requires
        pre.wf(),
        0 <= k <= pre.records@.len(),
    ensures
        forall|j: int|
            #![trigger dial_upto(pre, k)[j]]
            0 <= j < dial_upto(pre, k).len() ==> entry_from(pre, k, dial_upto(pre, k)[j]),
        forall|p: int|
            0 <= p < k && dial_rec(#[trigger] pre.records@[p], pre.store) ==> dial_upto(
                pre,
                k,
            ).contains((pre.records@[p].id@, pre.records@[p].address.unwrap())),
        forall|j: int, l: int|
            0 <= j < l < dial_upto(pre, k).len() ==> dial_upto(pre, k)[j].0 != dial_upto(
                pre,
                k,
            )[l].0,
    decreases k,
{
    if k > 0 {
        lemma_dial_upto(pre, k - 1);
        let prev = dial_upto(pre, k - 1);
        let curr = dial_upto(pre, k);
        let r = pre.records@[k - 1];
        assert forall|p: int|
            0 <= p < k && dial_rec(#[trigger] pre.records@[p], pre.store) implies curr.contains(
            (pre.records@[p].id@, pre.records@[p].address.unwrap()),
        ) by {
            let e = (pre.records@[p].id@, pre.records@[p].address.unwrap());
            if p < k - 1 {
                let j = choose|j: int| 0 <= j < prev.len() && prev[j] == e;
                if dial_rec(r, pre.store) {
                    assert(curr[j] == e);
                } else {
                    assert(curr[j] == e);
                }
            } else {
                assert(dial_rec(r, pre.store));
                assert(curr.last() == e);
                assert(curr[curr.len() - 1] == e);
            }
        }
        assert forall|j: int|
            #![trigger curr[j]]
            0 <= j < curr.len() implies entry_from(pre, k, curr[j]) by {
            if dial_rec(r, pre.store) && j == curr.len() - 1 {
                assert(curr[j] == (r.id@, r.address.unwrap()));
                assert((#[trigger] pre.records@[k - 1]).id@ == curr[j].0 && dial_rec(
                    pre.records@[k - 1],
                    pre.store,
                ) && curr[j].1 == pre.records@[k - 1].address.unwrap());
            } else {
                assert(curr[j] == prev[j]);
                assert(entry_from(pre, k - 1, prev[j]));
                let p = choose|p: int|
                    0 <= p < k - 1 && (#[trigger] pre.records@[p]).id@ == prev[j].0 && dial_rec(
                        pre.records@[p],
                        pre.store,
                    ) && prev[j].1 == pre.records@[p].address.unwrap();
                assert((pre.records@[p]).id@ == curr[j].0 && dial_rec(pre.records@[p], pre.store)
                    && curr[j].1 == pre.records@[p].address.unwrap());
            }
        }
        if dial_rec(r, pre.store) {
            assert forall|j: int, l: int|
                0 <= j < l < curr.len() implies curr[j].0 != curr[l].0 by {
                if l < curr.len() - 1 {
                    assert(prev[j].0 != prev[l].0);
                } else {
                    // the new entry's identity is fresh: every earlier entry
                    // comes from an earlier record, and record ids differ
                    assert(curr[j] == prev[j]);
                    assert(entry_from(pre, k - 1, prev[j]));
                    let p = choose|p: int|
                        0 <= p < k - 1 && pre.records@[p].id@ == prev[j].0 && dial_rec(
                            pre.records@[p],
                            pre.store,
                        ) && prev[j].1 == pre.records@[p].address.unwrap();
                    assert(pre.records@[p].id@ != r.id@);
                }
            }
        }
    }
}

/// Everything `Tracker::dialable` guarantees.
pub open spec fn dialable_post(pre: Tracker, post: Tracker, out: Seq<(Seq<u8>, Address)>) -> bool {
    &&& post.wf()
    &&& post.store == pre.store
    &&& out == dial_upto(pre, pre.records@.len() as int)
    // every entry was a dial candidate with its known address, and holds a
    // fresh reservation when the list is handed out
    &&& forall|j: int|
        0 <= j < out.len() ==> pre.dial_candidate(#[trigger] out[j].0) && pre.rec_at(
            out[j].0,
        ).address == Some(out[j].1) && post.is_reserved(out[j].0) && post.rec_at(out[j].0) == (
        PeerRecord { reserved: true, ..pre.rec_at(out[j].0) })
    // no identity appears twice
    &&& forall|j: int, l: int| 0 <= j < l < out.len() ==> out[j].0 != out[l].0
    // every dial candidate is in the list
    &&& forall|x: Seq<u8>|
        #[trigger] pre.dial_candidate(x) ==> out.contains((x, pre.rec_at(x).address.unwrap()))
    // everything else is untouched
    &&& forall|x: Seq<u8>| !pre.dial_candidate(x) ==> same_record(pre, post, x)
}

impl Tracker {
    /// Merge a gossip bit vector from `origin` and compute the reply: the
    /// addresses of authorized-set members whose bit is clear. Payloads whose
    /// length does not match the referenced epoch's set, or that refer to an
    /// unretained epoch or come from an unknown reporter, are dropped without
    /// any state change.
    pub fn bit_vec(&mut self, origin: &Identity, bv: BitVec) -> (reply: Option<Vec<PeerInfo>>)
        requires
            old(self).wf(),
        ensures
            bitvec_post(*old(self), *final(self), origin@, bv.index, bv.bits@, reply_views(reply)),
    {
        let ghost pre = *old(self);
        let oi = match find_record(&self.records, origin) {
            Some(i) => i,
            None => {
                return None;
            },
        };
        proof {
            pre.lemma_rec_pos(origin@);
            assert(pre.rec_pos(origin@) == oi as int);
        }
        let mut out: Vec<PeerInfo> = Vec::new();
        {
            let set = match self.store.lookup(bv.index) {
                Some(s) => s,
                None => {
                    return None;
                },
            };
            if bv.bits.len() != set.len() {
                return None;
            }
            let ghost ids = views(set@);
            proof {
                assert(ids == pre.store.set_at(bv.index));
                assert(bitvec_accepted(pre, origin@, bv.index, bv.bits@));
            }
            let mut k: usize = 0;
            while k < set.len()
                invariant
                    *self == pre,
                    pre.wf(),
                    k <= set@.len(),
                    bv.bits@.len() == set@.len(),
                    ids == views(set@),
                    info_views(out@) == reply_upto(pre, ids, bv.bits@, k as int),
                decreases set@.len() - k,
            {
                let ghost out0 = out@;
                if !bv.bits[k] {
                    match find_record(&self.records, &set[k]) {
                        Some(j) => {
                            proof {
                                pre.lemma_rec_pos(ids[k as int]);
                                assert(pre.rec_pos(ids[k as int]) == j as int);
                            }
                            match self.records[j].address {
                                Some(a) => {
                                    let item = PeerInfo { id: set[k].duplicate(), address: a };
                                    out.push(item);
                                    proof {
                                        assert(out@ =~= out0.push(item));
                                        assert(info_views(out@) =~= info_views(out0).push(
                                            (ids[k as int], a),
                                        ));
                                    }
                                },
                                None => {},
                            }
                        },
                        None => {},
                    }
                }
                k = k + 1;
            }
        }
        let ghost built = info_views(out@);
        proof {
            assert(built == reply_upto(pre, pre.store.set_at(bv.index), bv.bits@, bv.bits@.len() as int));
        }
        set_knowledge(&mut self.records, oi, bv);
        proof {
            lemma_same_after_update(pre, *self, oi as int);
            assert(self.records@[oi as int].id@ == origin@);
            assert(self.has_record(origin@));
            self.lemma_rec_pos(origin@);
            assert(self.rec_pos(origin@) == oi as int);
        }
        Some(out)
    }

    /// Compute the dial list: every authorized, address-known, unreserved,
    /// unconnected peer, each handed out with a fresh reservation.
    pub fn dialable(&mut self) -> (out: Vec<PeerInfo>)
        requires
            old(self).wf(),
        ensures
            dialable_post(*old(self), *final(self), info_views(out@)),
    {
        let ghost pre = *old(self);
        let mut out: Vec<PeerInfo> = Vec::new();
        let mut i: usize = 0;
        let ghost n = pre.records@.len() as int;
        while i < self.records.len()
            invariant
                pre.wf(),
                self.store == pre.store,
                self.records@.len() == pre.records@.len(),
                i <= self.records@.len(),
                forall|p: int|
                    0 <= p < pre.records@.len() ==> (#[trigger] self.records@[p]).id@
                        == pre.records@[p].id@,
                forall|p: int|
                    i <= p < pre.records@.len() ==> #[trigger] self.records@[p]
                        == pre.records@[p],
                forall|p: int|
                    0 <= p < i ==> #[trigger] self.records@[p] == (if dial_rec(
                        pre.records@[p],
                        pre.store,
                    ) {
                        (PeerRecord { reserved: true, ..pre.records@[p] })
                    } else {
                        pre.records@[p]
                    }),
                info_views(out@) == dial_upto(pre, i as int),
            decreases self.records@.len() - i,
        {
            let ghost out0 = out@;
            let eligible = if self.records[i].reserved || self.records[i].connected {
                false
            } else {
                proof {
                    assert(pre.store.wf());
                }
                self.store.is_authorized(&self.records[i].id)
            };
            if eligible {
                match self.records[i].address {
                    Some(a) => {
                        let item = PeerInfo { id: self.records[i].id.duplicate(), address: a };
                        out.push(item);
                        set_reserved(&mut self.records, i, true);
                        proof {
                            assert(dial_rec(pre.records@[i as int], pre.store));
                            assert(out@ =~= out0.push(item));
                            assert(info_views(out@) =~= info_views(out0).push(
                                (pre.records@[i as int].id@, a),
                            ));
                        }
                    },
                    None => {
                        proof {
                            assert(!dial_rec(pre.records@[i as int], pre.store));
                        }
                    },
                }
            } else {
                proof {
                    assert(!dial_rec(pre.records@[i as int], pre.store));
                }
            }
            i = i + 1;
        }
        proof {
            lemma_dial_upto(pre, n);
            let res = dial_upto(pre, n);
            assert(info_views(out@) == res);
            // the final state is well-formed: ids never changed
            assert forall|p: int, q: int|
                0 <= p < q < self.records@.len() implies self.records@[p].id@
                != self.records@[q].id@ by {
                assert(self.records@[p].id@ == pre.records@[p].id@);
                assert(self.records@[q].id@ == pre.records@[q].id@);
            }
            assert forall|j: int| 0 <= j < res.len() implies pre.dial_candidate(
                #[trigger] res[j].0,
            ) && pre.rec_at(res[j].0).address == Some(res[j].1) && self.is_reserved(res[j].0)
                && self.rec_at(res[j].0) == (PeerRecord {
                reserved: true,
                ..pre.rec_at(res[j].0)
            }) by {
                assert(entry_from(pre, n, res[j]));
                let p = choose|p: int|
                    0 <= p < n && (#[trigger] pre.records@[p]).id@ == res[j].0 && dial_rec(
                        pre.records@[p],
                        pre.store,
                    ) && res[j].1 == pre.records@[p].address.unwrap();
                let x = res[j].0;
                assert(pre.has_record(x));
                pre.lemma_rec_pos(x);
                assert(pre.rec_pos(x) == p);
                assert(self.records@[p].id@ == x);
                assert(self.has_record(x));
                self.lemma_rec_pos(x);
                assert(self.rec_pos(x) == p);
                assert(self.records@[p] == (PeerRecord { reserved: true, ..pre.records@[p] }));
            }
            assert forall|x: Seq<u8>| #[trigger] pre.dial_candidate(x) implies res.contains(
                (x, pre.rec_at(x).address.unwrap()),
            ) by {
                pre.lemma_rec_pos(x);
                let p = pre.rec_pos(x);
                assert(dial_rec(pre.records@[p], pre.store));
            }
            assert forall|x: Seq<u8>| !pre.dial_candidate(x) implies same_record(
                pre,
                *self,
                x,
            ) by {
                if pre.has_record(x) {
                    pre.lemma_rec_pos(x);
                    let p = pre.rec_pos(x);
                    assert(!dial_rec(pre.records@[p], pre.store));
                    assert(self.records@[p] == pre.records@[p]);
                    assert(self.has_record(x));
                    self.lemma_rec_pos(x);
                    assert(self.rec_pos(x) == p);
                } else {
                    if self.has_record(x) {
                        let p = self.rec_pos(x);
                        assert(self.records@[p].id@ == x);
                        assert(pre.records@[p].id@ == x);
                    }
                }
            }
        }
        out
    }

    /// The authorized set retained for `index`, if any.
    pub fn authorized_set(&self, index: u64) -> (r: Option<&Vec<Identity>>)
        requires
            self.wf(),
        ensures
            r is Some <==> self.store.has_index(index),
            r is Some ==> views(r.unwrap()@) == self.store.set_at(index),
    {
        self.store.lookup(index)
    }

    /// Whether `id` is present in some retained authorized set.
    pub fn is_authorized(&self, id: &Identity) -> (r: bool)
        requires
            self.wf(),
        ensures
            r == self.authorized(id@),
    {
        self.store.is_authorized(id)
    }

    /// Whether a reservation for `id` is currently live.
    pub fn reserved_for(&self, id: &Identity) -> (r: bool)
        requires
            self.wf(),
        ensures
            r == self.is_reserved(id@),
    {
        match find_record(&self.records, id) {
            Some(i) => {
                proof {
                    self.lemma_rec_pos(id@);
                    assert(self.rec_pos(id@) == i as int);
                }
                self.records[i].reserved
            },
            None => false,
        }
    }

    /// The gossip bit vector last accepted from `id`, if any.
    pub fn knowledge_of(&self, id: &Identity) -> (r: Option<&BitVec>)
        requires
            self.wf(),
        ensures
            r is Some <==> self.has_record(id@) && self.rec_at(id@).knowledge is Some,
            r is Some ==> *r.unwrap() == self.rec_at(id@).knowledge.unwrap(),
    {
        match find_record(&self.records, id) {
            Some(i) => {
                proof {
                    self.lemma_rec_pos(id@);
                    assert(self.rec_pos(id@) == i as int);
                }
                match &self.records[i].knowledge {
                    Some(b) => Some(b),
                    None => None,
                }
            },
            None => None,
        }
    }
}

/// Updating the record at position `i` leaves every other identity's record
/// as it was.
proof fn lemma_same_after_update(pre: Tracker, post: Tracker, i: int)
    requires
        pre.wf(),
        post.store == pre.store,
        0 <= i < pre.records@.len(),
        post.records@.len() == pre.records@.len(),
        forall|k: int| 0 <= k < pre.records@.len() && k != i ==> post.records@[k]
            == pre.records@[k],
        post.records@[i].id@ == pre.records@[i].id@,
    ensures
        post.wf(),
        forall|y: Seq<u8>|
            y != pre.records@[i].id@ ==> same_record(pre, post, y),
{
    assert forall|p: int, q: int|
        0 <= p < q < post.records@.len() implies post.records@[p].id@
        != post.records@[q].id@ by {
        assert(post.records@[p].id@ == pre.records@[p].id@);
        assert(post.records@[q].id@ == pre.records@[q].id@);
    }
    assert forall|y: Seq<u8>| y != pre.records@[i].id@ implies same_record(pre, post, y) by {
        if pre.has_record(y) {
            let p = pre.rec_pos(y);
            pre.lemma_rec_pos(y);
            assert(p != i);
            assert(post.records@[p].id@ == y);
            post.lemma_rec_pos(y);
            assert(post.rec_pos(y) == p);
        } else {
            if post.has_record(y) {
                let p = post.rec_pos(y);
                assert(post.records@[p].id@ == y);
                assert(pre.records@[p].id@ == y);
            }
        }
    }
}

/// Pushing a record for a fresh identity leaves every other identity's
/// record as it was.
proof fn lemma_same_after_push(pre: Tracker, post: Tracker, y: Seq<u8>)
    requires
        pre.wf(),
        post.wf(),
        post.store == pre.store,
        post.records@.len() == pre.records@.len() + 1,
        forall|k: int| 0 <= k < pre.records@.len() ==> post.records@[k] == pre.records@[k],
        y != post.records@[pre.records@.len() as int].id@,
    ensures
        same_record(pre, post, y),
{
    if pre.has_record(y) {
        let p = pre.rec_pos(y);
        pre.lemma_rec_pos(y);
        assert(post.records@[p].id@ == y);
        post.lemma_rec_pos(y);
        assert(post.rec_pos(y) == p);
    } else {
        if post.has_record(y) {
            let p = post.rec_pos(y);
            assert(post.records@[p].id@ == y);
            assert(p < pre.records@.len());
            assert(pre.records@[p].id@ == y);
        }
    }
}

} // verus!
