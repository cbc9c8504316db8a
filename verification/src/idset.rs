//! Sorted, duplicate-free sequences of identities.
//!
//! An authorized set is stored in this normal form so that every node agrees
//! on the position of each identity, which gives gossip bit vectors their
//! meaning.

use vstd::prelude::*;
use crate::order::lex_lt;
use crate::order::lemma_lex_connex;
use crate::order::lemma_lex_trans;
use crate::order::bytes_lt;
use crate::order::bytes_eq;
use crate::Identity;

verus! {

/// The byte sequences of a sequence of identities.
pub open spec fn views(s: Seq<Identity>) -> Seq<Seq<u8>> {
    s.map_values(|x: Identity| x@)
}

/// Strictly ascending in lexicographic order: sorted and duplicate-free.
pub open spec fn strictly_sorted(s: Seq<Seq<u8>>) -> bool {
    forall|i: int, j: int| 0 <= i < j < s.len() ==> lex_lt(s[i], s[j])
}

/// Whether `x` occurs in `s`.
pub open spec fn contains_id(s: Seq<Seq<u8>>, x: Seq<u8>) -> bool {
    exists|i: int| 0 <= i < s.len() && s[i] == x
}

/// Place one identity at its sorted position, dropping it if already present.
fn insert_id(out: &mut Vec<Identity>, id: Identity)
    requires
        strictly_sorted(views(old(out)@)),
    ensures
        strictly_sorted(views(final(out)@)),
        forall|x: Seq<u8>| contains_id(views(final(out)@), x) <==> (contains_id(
            views(old(out)@),
            x,
        ) || x == id@),
{
    let ghost pre = out@;
    let mut j: usize = 0;
    while j < out.len() && bytes_lt(&out[j].bytes, &id.bytes)
        invariant
            j <= out.len(),
            out@ == pre,
            strictly_sorted(views(out@)),
            forall|k: int| 0 <= k < j ==> lex_lt(views(out@)[k], id@),
        decreases out.len() - j,
    {
        j = j + 1;
    }
    if j < out.len() && bytes_eq(&out[j].bytes, &id.bytes) {
        // already present: the set is unchanged
        proof {
            assert(views(out@)[j as int] == id@);
            assert(contains_id(views(out@), id@));
        }
        return ;
    }
    proof {
        if j < out.len() {
            lemma_lex_connex(views(out@)[j as int], id@);
            assert(lex_lt(id@, views(out@)[j as int]));
        }
    }
    out.insert(j, id);
    proof {
        pre.insert_ensures(j as int, id);
        let post = views(out@);
        assert(post.len() == pre.len() + 1);
        assert forall|i: int| 0 <= i < post.len() implies post[i] == (if i < j {
            views(pre)[i]
        } else if i == j {
            id@
        } else {
            views(pre)[i - 1]
        }) by {
            assert(post[i] == out@[i]@);
            if i < j {
                assert(out@[i] == pre[i]);
            } else if i == j {
                assert(out@[i] == id);
            } else {
                assert(out@[i] == pre.insert(j as int, id)[i]);
                assert(pre.insert(j as int, id)[(i - 1) + 1] == pre[i - 1]);
            }
        }
        assert forall|p: int, q: int| 0 <= p < q < post.len() implies lex_lt(
            post[p],
            post[q],
        ) by {
            let vp = views(pre);
            let jj = j as int;
            if q < jj {
                assert(lex_lt(vp[p], vp[q]));
            } else if p < jj && q == jj {
                assert(lex_lt(vp[p], id@));
            } else if p == jj {
                assert(lex_lt(id@, vp[jj]));
                if q - 1 > jj {
                    assert(lex_lt(vp[jj], vp[q - 1]));
                    lemma_lex_trans(id@, vp[jj], vp[q - 1]);
                }
            } else if p < jj {
                assert(lex_lt(vp[p], id@));
                assert(lex_lt(id@, vp[jj]));
                lemma_lex_trans(vp[p], id@, vp[jj]);
                if q - 1 > jj {
                    assert(lex_lt(vp[jj], vp[q - 1]));
                    lemma_lex_trans(vp[p], vp[jj], vp[q - 1]);
                }
            } else {
                assert(lex_lt(vp[p - 1], vp[q - 1]));
            }
        }
        assert forall|x: Seq<u8>| contains_id(post, x) implies (contains_id(views(pre), x) || x
            == id@) by {
            let i = choose|i: int| 0 <= i < post.len() && post[i] == x;
            if i < j {
                assert(views(pre)[i] == x);
            } else if i > j {
                assert(views(pre)[i - 1] == x);
            }
        }
        assert forall|x: Seq<u8>| (contains_id(views(pre), x) || x == id@) implies contains_id(
            post,
            x,
        ) by {
            if x == id@ {
                assert(post[j as int] == x);
            } else {
                let i = choose|i: int| 0 <= i < views(pre).len() && views(pre)[i] == x;
                if i < j {
                    assert(post[i] == x);
                } else {
                    assert(post[i + 1] == x);
                }
            }
        }
    }
}

/// Normalize an identity sequence: sort by identity and drop duplicates.
///
/// The result contains exactly the identities of the input, in strictly
/// ascending lexicographic order, whatever the input order was.
pub fn sort_dedup(ids: Vec<Identity>) -> (r: Vec<Identity>)
    ensures
        strictly_sorted(views(r@)),
        forall|x: Seq<u8>| contains_id(views(r@), x) <==> contains_id(views(ids@), x),
{
    let mut out: Vec<Identity> = Vec::new();
    let mut i: usize = 0;
    let ghost input = ids@;
    let mut rest = ids;
    proof {
        assert(views(out@) =~= Seq::<Seq<u8>>::empty());
    }
    while rest.len() > 0
        invariant
            strictly_sorted(views(out@)),
            rest@.len() <= input.len(),
            rest@ == input.skip(input.len() - rest@.len()),
            forall|x: Seq<u8>| contains_id(views(out@), x) <==> contains_id(
                views(input.take(input.len() - rest@.len())),
                x,
            ),
        decreases rest.len(),
    {
        let ghost done = input.len() - rest@.len();
        let id = rest.remove(0);
        proof {
            assert(id == input[done]);
            assert(rest@ =~= input.skip(done + 1));
        }
        insert_id(&mut out, id);
        proof {
            let t1 = views(input.take(done + 1));
            let t0 = views(input.take(done));
            assert forall|x: Seq<u8>| contains_id(t1, x) implies (contains_id(t0, x) || x
                == input[done]@) by {
                let i = choose|i: int| 0 <= i < t1.len() && t1[i] == x;
                if i < done {
                    assert(t0[i] == x);
                } else {
                    assert(input.take(done + 1)[i] == input[done]);
                }
            }
            assert forall|x: Seq<u8>| (contains_id(t0, x) || x == input[done]@) implies contains_id(
                t1,
                x,
            ) by {
                if x == input[done]@ {
                    assert(t1[done] == x);
                } else {
                    let i = choose|i: int| 0 <= i < t0.len() && t0[i] == x;
                    assert(t1[i] == x);
                }
            }
        }
    }
    proof {
        assert(input.take(input.len() as int) =~= input);
    }
    out
}

} // verus!
