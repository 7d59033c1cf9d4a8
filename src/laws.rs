//! Laws of the union-find operations, stated over the forests that their
//! contracts produce: `find` and `in_same_set` give `split`, `union` gives
//! `Forest::union` and `extend` gives `grow`.
use vstd::prelude::*;

use crate::forest::{Forest, lemma_grow, lemma_root, lemma_split, lemma_union, saturating_inc};

verus! {

/// Every id is in its own set.
pub proof fn law_same_set_reflexive(f: Forest, e: int)
    requires
        f.wf(),
        f.contains(e),
    ensures
        f.same_set(e, e),
{
}

/// `in_same_set(a, b)` and `in_same_set(b, a)` agree, whichever is asked first:
/// the splitting done by the first call changes no answer of the second.
pub proof fn law_same_set_symmetric(f: Forest, a: int, b: int)
    requires
        f.wf(),
        f.contains(a),
        f.contains(b),
    ensures
        f.same_set(a, b) == f.same_set(b, a),
        f.split(a).split(b).same_set(b, a) == f.same_set(a, b),
        f.split(b).split(a).same_set(a, b) == f.same_set(b, a),
{
    lemma_split(f, a);
    lemma_split(f.split(a), b);
    lemma_split(f, b);
    lemma_split(f.split(b), a);
}

/// A second `union(a, b)` finds `a` and `b` already joined, so it returns
/// `false`, and it leaves every representative as the first call left it.
pub proof fn law_union_idempotent(f: Forest, a: int, b: int)
    requires
        f.wf(),
        f.contains(a),
        f.contains(b),
    ensures
        f.union(a, b).same_set(a, b),
        forall|z: int|
            f.contains(z) ==> #[trigger] f.union(a, b).union(a, b).root(z) == f.union(
                a,
                b,
            ).root(z),
{
    let g = f.union(a, b);
    lemma_union(f, a, b);
    lemma_union(g, a, b);
    assert forall|z: int| f.contains(z) implies #[trigger] g.union(a, b).root(z) == g.root(z) by {
        lemma_root(f, a);
        lemma_root(f, b);
        lemma_root(g, a);
        if g.same_set(z, a) || g.same_set(z, b) {
            let w = f.winner(f.root(a), f.root(b));
            assert(g.root(a) == w);
            assert(g.rank[w] >= 0);
        }
    }
}

/// After `union(a, b)` and then `union(b, c)`, `a` and `c` are in one set.
pub proof fn law_union_transitive(f: Forest, a: int, b: int, c: int)
    requires
        f.wf(),
        f.contains(a),
        f.contains(b),
        f.contains(c),
    ensures
        f.union(a, b).union(b, c).same_set(a, c),
{
    let g = f.union(a, b);
    lemma_union(f, a, b);
    lemma_union(g, b, c);
}

/// `extend(k)` adds exactly `k` ids and changes no representative, hence no
/// answer of `find` or `in_same_set`, for the ids that were there before.
pub proof fn law_extend_keeps_sets(f: Forest, k: nat)
    requires
        f.wf(),
        f.len() + k <= usize::MAX,
    ensures
        f.grow(k).len() == f.len() + k,
        forall|z: int| f.contains(z) ==> #[trigger] f.grow(k).root(z) == f.root(z),
        forall|x: int, y: int|
            f.contains(x) && f.contains(y) ==> #[trigger] f.grow(k).same_set(x, y) == f.same_set(
                x,
                y,
            ),
{
    lemma_grow(f, k);
}

/// Under `union` each rank either stays or grows by one with saturation: it never
/// falls, and a rank at the largest `usize` stays there rather than wrapping.
pub proof fn law_union_rank_saturates(f: Forest, a: int, b: int)
    requires
        f.wf(),
        f.contains(a),
        f.contains(b),
    ensures
        forall|z: int|
            f.contains(z) ==> {
                &&& #[trigger] f.union(a, b).rank[z] == f.rank[z] || f.union(a, b).rank[z]
                    == saturating_inc(f.rank[z])
                &&& f.rank[z] <= f.union(a, b).rank[z]
                &&& (f.rank[z] == usize::MAX ==> f.union(a, b).rank[z] == usize::MAX)
            },
{
    let s = f.split(a).split(b);
    let (ra, rb) = (f.root(a), f.root(b));
    assert(s.rank == f.rank);
    lemma_root(f, a);
    lemma_root(f, b);
    assert forall|z: int| f.contains(z) implies #[trigger] f.union(a, b).rank[z] == f.rank[z]
        || f.union(a, b).rank[z] == saturating_inc(f.rank[z]) by {
        if ra != rb && s.rank[ra] == s.rank[rb] {
            assert(s.link(ra, rb).rank == f.rank.update(rb, saturating_inc(f.rank[rb])));
        } else {
            assert(s.link(ra, rb).rank == f.rank);
        }
    }
}

} // verus!
