//! The guarantees the tracker gives across requests, stated and proved over
//! the request handlers' contracts.

use vstd::prelude::*;
use crate::idset::contains_id;
use crate::idset::strictly_sorted;
use crate::store::AuthStore;
use crate::store::register_post;
use crate::tracker::Address;
use crate::tracker::Tracker;
use crate::tracker::bitvec_post;
use crate::tracker::dialable_post;
use crate::tracker::release_post;
use crate::tracker::reserve_post;

verus! {

/// While a reservation for `p` is live, no second one can be granted: a
/// reserve request for `p` is refused and `p` is not a dial candidate. At
/// most one reservation per identity is therefore live at any point of the
/// serialized request order.
pub proof fn lemma_reservation_exclusive(t: Tracker, p: Seq<u8>)
    requires
        t.wf(),
        t.is_reserved(p),
    ensures
        !t.grants_reservation(p),
        !t.dial_candidate(p),
{
}

/// Two consecutive reserve requests for the same identity never both
/// succeed: granting the first makes the second see a live reservation.
pub proof fn lemma_no_double_grant(
    t0: Tracker,
    t1: Tracker,
    t2: Tracker,
    p: Seq<u8>,
    g1: bool,
    g2: bool,
)
    requires
        t0.wf(),
        reserve_post(t0, t1, p, g1),
        reserve_post(t1, t2, p, g2),
    ensures
        !(g1 && g2),
{
    if g1 {
        assert(t1.is_reserved(p));
    }
}

/// An identity handed out by the dial list holds a live reservation the
/// moment the list exists, so a concurrent inbound claim for it is refused.
pub proof fn lemma_dialable_then_reserve(
    t0: Tracker,
    t1: Tracker,
    t2: Tracker,
    out: Seq<(Seq<u8>, Address)>,
    j: int,
    granted: bool,
)
    requires
        t0.wf(),
        dialable_post(t0, t1, out),
        0 <= j < out.len(),
        reserve_post(t1, t2, out[j].0, granted),
    ensures
        !granted,
{
    assert(t1.is_reserved(out[j].0));
}

/// A reserve request made while a reservation for `p` is still live returns
/// nothing.
pub proof fn lemma_reserve_while_live(t0: Tracker, t1: Tracker, p: Seq<u8>, granted: bool)
    requires
        t0.wf(),
        t0.is_reserved(p),
        reserve_post(t0, t1, p, granted),
    ensures
        !granted,
{
}

/// Once the release of a live reservation is processed, a reserve request
/// for the same identity succeeds again, as long as it is still authorized.
pub proof fn lemma_release_then_reserve(t0: Tracker, t1: Tracker, p: Seq<u8>)
    requires
        t0.wf(),
        t0.is_reserved(p),
        release_post(t0, t1, p),
        t0.authorized(p),
    ensures
        t1.grants_reservation(p),
{
    assert(t1.rec_at(p).reserved == false);
}

/// Reservations are only ever granted, and dial targets only ever offered,
/// for identities present in some retained authorized set.
pub proof fn lemma_grant_requires_authorization(t: Tracker, p: Seq<u8>)
    requires
        t.wf(),
    ensures
        t.grants_reservation(p) ==> t.authorized(p),
        t.dial_candidate(p) ==> t.authorized(p),
{
}

/// Registration authorizes nothing beyond its input: an identity that was
/// not authorized before and is not named in the registered set is still not
/// authorized afterwards. An identity never registered is always rejected.
pub proof fn lemma_register_bounds_authorization(
    pre: AuthStore,
    post: AuthStore,
    index: u64,
    input: Seq<Seq<u8>>,
    x: Seq<u8>,
)
    requires
        register_post(pre, post, index, input),
        !pre.authorized(x),
        !contains_id(input, x),
    ensures
        !post.authorized(x),
{
}

/// A stored authorized set is sorted and duplicate-free, and holds exactly
/// the identities of the registered input, whatever order the input had.
pub proof fn lemma_register_normalizes(
    pre: AuthStore,
    post: AuthStore,
    index: u64,
    input: Seq<Seq<u8>>,
)
    requires
        register_post(pre, post, index, input),
        post.has_index(index),
    ensures
        strictly_sorted(post.set_at(index)),
        forall|x: Seq<u8>| contains_id(post.set_at(index), x) <==> contains_id(input, x),
{
}

/// A gossip bit vector whose length does not match the referenced epoch's
/// authorized set is rejected and produces no observable state change.
pub proof fn lemma_malformed_bitvec_rejected(
    pre: Tracker,
    post: Tracker,
    origin: Seq<u8>,
    index: u64,
    bits: Seq<bool>,
    reply: Option<Seq<(Seq<u8>, Address)>>,
)
    requires
        bitvec_post(pre, post, origin, index, bits, reply),
        pre.store.has_index(index),
        bits.len() != pre.store.set_at(index).len(),
    ensures
        post == pre,
        reply is None,
{
}

/// Releasing an identity with no live reservation is a no-op: the state is
/// exactly what it was, and no error arises.
pub proof fn lemma_release_idempotent(pre: Tracker, post: Tracker, p: Seq<u8>)
    requires
        release_post(pre, post, p),
        !pre.is_reserved(p),
    ensures
        post == pre,
{
}

} // verus!
