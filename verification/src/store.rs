//! Authorization store: per-epoch authorized sets with bounded retention.
//!
//! Each epoch index maps to a sorted, duplicate-free sequence of identities.
//! The store keeps a sliding window of the most recent indices; once the
//! window is full, inserting a new index evicts the smallest retained one.

use vstd::prelude::*;
use crate::idset::views;
use crate::idset::strictly_sorted;
use crate::idset::contains_id;
use crate::idset::sort_dedup;
use crate::order::bytes_eq;
use crate::Identity;

verus! {

/// Authorized sets, keyed by epoch index, ascending, at most `max_sets` kept.
pub struct AuthStore {
    /// Retained entries, strictly ascending by epoch index.
    pub sets: Vec<(u64, Vec<Identity>)>,
    /// Retention bound: how many epoch indices are kept.
    pub max_sets: usize,
}

impl AuthStore {
    /// Well-formedness: indices strictly ascending, every set normalized,
    /// retention bound respected.
    pub open spec fn wf(self) -> bool {
        &&& self.max_sets >= 1
        &&& self.sets@.len() <= self.max_sets
        &&& forall|i: int, j: int|
            0 <= i < j < self.sets@.len() ==> self.sets@[i].0 < self.sets@[j].0
        &&& forall|i: int|
            0 <= i < self.sets@.len() ==> strictly_sorted(views(#[trigger] self.sets@[i].1@))
    }

    /// Whether an authorized set is retained for `idx`.
    pub open spec fn has_index(self, idx: u64) -> bool {
        exists|i: int| 0 <= i < self.sets@.len() && self.sets@[i].0 == idx
    }

    /// Position of the entry for `idx` among the retained entries.
    pub open spec fn index_pos(self, idx: u64) -> int {
        choose|i: int| 0 <= i < self.sets@.len() && self.sets@[i].0 == idx
    }

    /// The authorized set retained for `idx`.
    pub open spec fn set_at(self, idx: u64) -> Seq<Seq<u8>> {
        views(self.sets@[self.index_pos(idx)].1@)
    }

    /// Whether `x` is authorized: present in some retained set.
    pub open spec fn authorized(self, x: Seq<u8>) -> bool {
        exists|i: int|
            0 <= i < self.sets@.len() && contains_id(views(#[trigger] self.sets@[i].1@), x)
    }

    /// The entry for a retained index sits at a unique position.
    pub proof fn lemma_index_pos(self, idx: u64)
        requires
            self.wf(),
            self.has_index(idx),
        ensures
            0 <= self.index_pos(idx) < self.sets@.len(),
            self.sets@[self.index_pos(idx)].0 == idx,
            forall|k: int|
                0 <= k < self.sets@.len() && self.sets@[k].0 == idx ==> k == self.index_pos(idx),
    {
        let p = self.index_pos(idx);
        assert(0 <= p < self.sets@.len() && self.sets@[p].0 == idx);
        assert forall|k: int|
            0 <= k < self.sets@.len() && self.sets@[k].0 == idx implies k == p by {
            if k < p {
                assert(self.sets@[k].0 < self.sets@[p].0);
            } else if k > p {
                assert(self.sets@[p].0 < self.sets@[k].0);
            }
        }
    }

    /// An empty store with the given retention bound.
    pub fn new(max_sets: usize) -> (r: AuthStore)
        requires
            max_sets >= 1,
        ensures
            r.wf(),
            r.max_sets == max_sets,
            r.sets@.len() == 0,
            forall|idx: u64| !r.has_index(idx),
            forall|x: Seq<u8>| !r.authorized(x),
    {
        AuthStore { sets: Vec::new(), max_sets }
    }
}

/// Whether storing a new set at `index` must evict an old one: the index is
/// new and the window is already full.
pub open spec fn register_grows(pre: AuthStore, index: u64) -> bool {
    !pre.has_index(index) && pre.sets@.len() == pre.max_sets
}

/// Whether index `j` is the one evicted by registering at `index`: eviction
/// happens, and `j` is the smallest of the retained indices and `index`.
pub open spec fn register_evicts(pre: AuthStore, index: u64, j: u64) -> bool {
    &&& register_grows(pre, index)
    &&& (pre.has_index(j) || j == index)
    &&& forall|k: u64| pre.has_index(k) || k == index ==> j <= k
}

/// Everything `AuthStore::register` guarantees, relating the store before
/// and after the call.
pub open spec fn register_post(
    pre: AuthStore,
    post: AuthStore,
    index: u64,
    input: Seq<Seq<u8>>,
) -> bool {
    &&& post.wf()
    &&& post.max_sets == pre.max_sets
    // the set stored at `index`, when retained, is the normalization of the input
    &&& post.has_index(index) ==> strictly_sorted(post.set_at(index)) && (forall|x: Seq<u8>|
        contains_id(post.set_at(index), x) <==> contains_id(input, x))
    // every other retained index keeps the set it had
    &&& forall|j: u64|
        post.has_index(j) && j != index ==> pre.has_index(j) && post.set_at(j) == pre.set_at(j)
    // exactly which indices are retained afterwards
    &&& forall|j: u64|
        #[trigger] post.has_index(j) <==> (pre.has_index(j) || j == index) && !register_evicts(
            pre,
            index,
            j,
        )
    // no identity becomes authorized beyond the input
    &&& forall|x: Seq<u8>| post.authorized(x) ==> pre.authorized(x) || contains_id(input, x)
}

impl AuthStore {
    /// Store the authorized set for `index`: normalize the input, replace any
    /// set already at `index`, and evict the smallest retained index if the
    /// window overflows.
    #[verifier::rlimit(100)]
    pub fn register(&mut self, index: u64, ids: Vec<Identity>)
        requires
            old(self).wf(),
        ensures
            register_post(*old(self), *final(self), index, views(ids@)),
    {
        let ghost pre = *old(self);
        let ghost input = views(ids@);
        let sorted = sort_dedup(ids);
        let mut i: usize = 0;
        while i < self.sets.len() && self.sets[i].0 < index
            invariant
                *self == pre,
                i <= self.sets@.len(),
                forall|k: int| 0 <= k < i ==> self.sets@[k].0 < index,
            decreases self.sets@.len() - i,
        {
            i = i + 1;
        }
        if i < self.sets.len() && self.sets[i].0 == index {
            // replace the set stored at this index
            self.sets.remove(i);
            self.sets.insert(i, (index, sorted));
            proof {
                let a = pre.sets@;
                let b = self.sets@;
                a.remove_ensures(i as int);
                a.remove(i as int).insert_ensures(i as int, (index, sorted));
                assert(b =~= a.update(i as int, (index, sorted)));
                assert(pre.has_index(index));
                assert forall|j: u64| #[trigger] self.has_index(j) implies pre.has_index(j) by {
                    let p = choose|p: int| 0 <= p < b.len() && b[p].0 == j;
                    assert(a[p].0 == j);
                }
                assert forall|j: u64| pre.has_index(j) implies self.has_index(j) by {
                    let p = choose|p: int| 0 <= p < a.len() && a[p].0 == j;
                    assert(b[p].0 == j);
                }
                assert(self.wf());
                self.lemma_index_pos(index);
                assert(b[i as int].0 == index);
                assert(self.index_pos(index) == i as int);
                assert forall|j: u64| self.has_index(j) && j != index implies pre.has_index(j)
                    && self.set_at(j) == pre.set_at(j) by {
                    self.lemma_index_pos(j);
                    pre.lemma_index_pos(j);
                    let p = self.index_pos(j);
                    assert(a[p].0 == j);
                    assert(pre.index_pos(j) == p);
                    assert(p != i as int);
                }
                assert forall|x: Seq<u8>| self.authorized(x) implies pre.authorized(x)
                    || contains_id(input, x) by {
                    let p = choose|p: int|
                        0 <= p < b.len() && contains_id(views(b[p].1@), x);
                    if p == i as int {
                        assert(contains_id(views(sorted@), x));
                    } else {
                        assert(contains_id(views(a[p].1@), x));
                    }
                }
                assert(register_post(pre, *self, index, input));
            }
        } else {
            self.sets.insert(i, (index, sorted));
            proof {
                let a = pre.sets@;
                let b = self.sets@;
                a.insert_ensures(i as int, (index, sorted));
                assert(!pre.has_index(index)) by {
                    if pre.has_index(index) {
                        let p = choose|p: int| 0 <= p < a.len() && a[p].0 == index;
                        if p < i as int {
                            assert(a[p].0 < index);
                        } else {
                            if i < a.len() {
                                if p > i as int {
                                    assert(a[i as int].0 < a[p].0);
                                }
                            }
                        }
                    }
                }
                // indices stay strictly ascending around the insertion point
                assert forall|p: int, q: int| 0 <= p < q < b.len() implies b[p].0 < b[q].0 by {
                    if q < i as int {
                    } else if p < i as int && q == i as int {
                        assert(b[p].0 == a[p].0);
                    } else if p == i as int {
                        assert(b[q].0 == a[q - 1].0);
                        assert(i as int <= q - 1 < a.len());
                        if i < a.len() {
                            if q - 1 > i as int {
                                assert(a[i as int].0 < a[q - 1].0);
                            }
                        }
                    } else if p < i as int {
                        assert(b[p].0 == a[p].0 && b[q].0 == a[q - 1].0);
                        if q - 1 > p {
                            assert(a[p].0 < a[q - 1].0);
                        }
                    } else {
                        assert(b[p].0 == a[p - 1].0 && b[q].0 == a[q - 1].0);
                    }
                }
                assert forall|j: u64| #[trigger] self.has_index(j) implies pre.has_index(j) || j
                    == index by {
                    let p = choose|p: int| 0 <= p < b.len() && b[p].0 == j;
                    if p < i as int {
                        assert(a[p].0 == j);
                    } else if p > i as int {
                        assert(a[p - 1].0 == j);
                    }
                }
                assert forall|j: u64| pre.has_index(j) || j == index implies self.has_index(
                    j,
                ) by {
                    if j == index {
                        assert(b[i as int].0 == j);
                    } else {
                        let p = choose|p: int| 0 <= p < a.len() && a[p].0 == j;
                        if p < i as int {
                            assert(b[p].0 == j);
                        } else {
                            assert(b[p + 1].0 == j);
                        }
                    }
                }
                assert forall|x: Seq<u8>| self.authorized(x) implies pre.authorized(x)
                    || contains_id(input, x) by {
                    let p = choose|p: int|
                        0 <= p < b.len() && contains_id(views(b[p].1@), x);
                    if p == i as int {
                        assert(contains_id(views(sorted@), x));
                    } else if p < i as int {
                        assert(contains_id(views(a[p].1@), x));
                    } else {
                        assert(contains_id(views(a[p - 1].1@), x));
                    }
                }
            }
            let ghost mid = *self;
            if self.sets.len() > self.max_sets {
                self.sets.remove(0);
                proof {
                    let b = mid.sets@;
                    let c = self.sets@;
                    b.remove_ensures(0);
                    assert(c =~= b.drop_first());
                    assert(b.len() == pre.sets@.len() + 1);
                    assert(register_grows(pre, index));
                    // b's head holds the smallest index
                    assert forall|p: int| 0 <= p < b.len() implies b[0].0 <= #[trigger] b[p].0 by {
                        if p > 0 {
                            assert(b[0].0 < b[p].0);
                        }
                    }
                    let evicted = b[0].0;
                    assert forall|j: u64| #[trigger] self.has_index(j) implies (pre.has_index(j)
                        || j == index) && !register_evicts(pre, index, j) by {
                        let p = choose|p: int| 0 <= p < c.len() && c[p].0 == j;
                        assert(b[p + 1].0 == j);
                        assert(mid.has_index(j));
                        if register_evicts(pre, index, j) {
                            // j would be the unique minimum, yet the minimum
                            // sits at the evicted head
                            assert(mid.has_index(evicted));
                            assert(pre.has_index(evicted) || evicted == index);
                            assert(j <= evicted);
                            assert(b[0].0 <= b[p + 1].0);
                            assert(j == evicted);
                            assert(b[0].0 < b[p + 1].0);
                        }
                    }
                    assert forall|j: u64| (pre.has_index(j) || j == index) && !register_evicts(
                        pre,
                        index,
                        j,
                    ) implies self.has_index(j) by {
                        assert(mid.has_index(j));
                        let p = choose|p: int| 0 <= p < b.len() && b[p].0 == j;
                        if p == 0 {
                            // the head is the minimum, so j being retained
                            // would contradict !register_evicts
                            assert forall|k: u64| pre.has_index(k) || k == index implies j
                                <= k by {
                                assert(mid.has_index(k));
                                let q = choose|q: int| 0 <= q < b.len() && b[q].0 == k;
                                assert(b[0].0 <= b[q].0);
                            }
                            assert(register_evicts(pre, index, j));
                        } else {
                            assert(c[p - 1].0 == j);
                        }
                    }
                    assert forall|j: u64| self.has_index(j) && j != index implies pre.has_index(
                        j,
                    ) && self.set_at(j) == pre.set_at(j) by {
                        assert(self.wf());
                        self.lemma_index_pos(j);
                        let p = self.index_pos(j);
                        assert(b[p + 1].0 == j);
                        assert(p + 1 != i as int);
                        if p + 1 < i as int {
                            assert(pre.sets@[p + 1] == b[p + 1]);
                            pre.lemma_index_pos(j);
                            assert(pre.index_pos(j) == p + 1);
                        } else {
                            assert(pre.sets@[p] == b[p + 1]);
                            pre.lemma_index_pos(j);
                            assert(pre.index_pos(j) == p);
                        }
                    }
                    assert forall|x: Seq<u8>| self.authorized(x) implies pre.authorized(x)
                        || contains_id(input, x) by {
                        let p = choose|p: int|
                            0 <= p < c.len() && contains_id(views(c[p].1@), x);
                        assert(contains_id(views(b[p + 1].1@), x));
                        assert(mid.authorized(x));
                    }
                    if self.has_index(index) {
                        self.lemma_index_pos(index);
                        let p = self.index_pos(index);
                        assert(b[p + 1].0 == index);
                        assert(p + 1 == i as int);
                        assert(c[p].1 == sorted);
                    }
                    assert(register_post(pre, *self, index, input));
                }
            } else {
                proof {
                    assert(!register_grows(pre, index));
                    assert(self.wf());
                    assert forall|j: u64| self.has_index(j) && j != index implies pre.has_index(
                        j,
                    ) && self.set_at(j) == pre.set_at(j) by {
                        let b = self.sets@;
                        let a = pre.sets@;
                        self.lemma_index_pos(j);
                        let p = self.index_pos(j);
                        if p < i as int {
                            assert(a[p] == b[p]);
                            pre.lemma_index_pos(j);
                            assert(pre.index_pos(j) == p);
                        } else {
                            assert(p != i as int);
                            assert(a[p - 1] == b[p]);
                            pre.lemma_index_pos(j);
                            assert(pre.index_pos(j) == p - 1);
                        }
                    }
                    if self.has_index(index) {
                        self.lemma_index_pos(index);
                        assert(self.sets@[i as int].0 == index);
                        assert(self.index_pos(index) == i as int);
                        assert(self.sets@[i as int].1 == sorted);
                    }
                    assert(register_post(pre, *self, index, input));
                }
            }
        }
    }

    /// The authorized set retained for `index`, if any.
    pub fn lookup(&self, index: u64) -> (r: Option<&Vec<Identity>>)
        requires
            self.wf(),
        ensures
            r is Some <==> self.has_index(index),
            r is Some ==> views(r.unwrap()@) == self.set_at(index),
    {
        let mut i: usize = 0;
        while i < self.sets.len()
            invariant
                self.wf(),
                i <= self.sets@.len(),
                forall|k: int| 0 <= k < i ==> self.sets@[k].0 != index,
            decreases self.sets@.len() - i,
        {
            if self.sets[i].0 == index {
                proof {
                    assert(self.has_index(index));
                    self.lemma_index_pos(index);
                    assert(self.index_pos(index) == i as int);
                }
                return Some(&self.sets[i].1);
            }
            i = i + 1;
        }
        None
    }

    /// Whether `id` is present in some retained authorized set.
    pub fn is_authorized(&self, id: &Identity) -> (r: bool)
        requires
            self.wf(),
        ensures
            r == self.authorized(id@),
    {
        let mut i: usize = 0;
        while i < self.sets.len()
            invariant
                self.wf(),
                i <= self.sets@.len(),
                forall|k: int|
                    0 <= k < i ==> !contains_id(views(#[trigger] self.sets@[k].1@), id@),
            decreases self.sets@.len() - i,
        {
            if contains_identity(&self.sets[i].1, id) {
                return true;
            }
            i = i + 1;
        }
        false
    }
}

/// Whether `id` occurs among `ids`.
pub fn contains_identity(ids: &Vec<Identity>, id: &Identity) -> (r: bool)
    ensures
        r == contains_id(views(ids@), id@),
{
    let mut i: usize = 0;
    while i < ids.len()
        invariant
            i <= ids@.len(),
            forall|k: int| 0 <= k < i ==> views(ids@)[k] != id@,
        decreases ids@.len() - i,
    {
        if bytes_eq(&ids[i].bytes, &id.bytes) {
            proof {
                assert(views(ids@)[i as int] == id@);
            }
            return true;
        }
        i = i + 1;
    }
    false
}

} // verus!
