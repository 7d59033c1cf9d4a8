//! The union-find structure itself: two parallel vectors of parents and ranks.
use vstd::prelude::*;

use crate::forest::{
    Forest, lemma_grow, lemma_on_path_level, lemma_reparent_root, lemma_reparent_wf, lemma_root,
    lemma_on_path_trans, lemma_split, lemma_union,
};

verus! {

/// Vector-based union-find representing a set of disjoint sets.
pub struct UnionFind {
    parents: Vec<usize>,
    ranks: Vec<usize>,
    level: Ghost<Seq<nat>>,
}

impl View for UnionFind {
    type V = Forest;

    closed spec fn view(&self) -> Forest {
        Forest { parent: self.parents@, rank: self.ranks@, level: self.level@ }
    }
}

impl Clone for UnionFind {
    /// A deep copy, equal to the original.
    fn clone(&self) -> (r: Self)
        ensures
            r@ == self@,
    {
        let parents = self.parents.clone();
        let ranks = self.ranks.clone();
        assert(parents@ =~= self.parents@);
        assert(ranks@ =~= self.ranks@);
        UnionFind { parents, ranks, level: self.level }
    }
}

/// `0, 1, ..., size - 1`: every id its own parent.
fn identity_parents(size: usize) -> (r: Vec<usize>)
    ensures
        r@ == Seq::new(size as nat, |i: int| i as usize),
{
    let mut parents: Vec<usize> = Vec::new();
    let mut i: usize = 0;
    while i < size
        invariant
            i <= size,
            parents@ == Seq::new(i as nat, |j: int| j as usize),
        decreases size - i,
    {
        parents.push(i);
        i += 1;
        assert(parents@ =~= Seq::new(i as nat, |j: int| j as usize));
    }
    parents
}

impl UnionFind {
    /// `size` singletons of rank 0.
    pub fn with_size(size: usize) -> (r: Self)
        ensures
            r@ == Forest::singletons(Seq::new(size as nat, |i: int| 0usize)),
            r@.wf(),
    {
        let ranks: Vec<usize> = vec![0; size];
        assert(ranks@ =~= Seq::new(size as nat, |i: int| 0usize));
        UnionFind::with_ranks(ranks)
    }

    /// One singleton for each given rank, taken as it is.
    pub fn with_ranks(ranks: Vec<usize>) -> (r: Self)
        ensures
            r@ == Forest::singletons(ranks@),
            r@.wf(),
    {
        let size = ranks.len();
        UnionFind {
            parents: identity_parents(size),
            ranks,
            level: Ghost(Seq::new(size as nat, |i: int| 0nat)),
        }
    }

    pub fn len(&self) -> (r: usize)
        ensures
            r == self@.len(),
    {
        self.parents.len()
    }

    pub fn is_empty(&self) -> (r: bool)
        ensures
            r == (self@.len() == 0),
    {
        self.parents.is_empty()
    }

    /// Appends `size` singletons of rank 0, with the ids `len()` to
    /// `len() + size - 1`; every earlier id keeps its parent and its set.
    pub fn extend(&mut self, size: usize)
        requires
            old(self)@.wf(),
            old(self)@.len() + size <= usize::MAX,
        ensures
            final(self)@ == old(self)@.grow(size as nat),
            final(self)@.wf(),
            final(self)@.len() == old(self)@.len() + size,
            forall|z: int|
                old(self)@.contains(z) ==> #[trigger] final(self)@.root(z) == old(self)@.root(z),
            forall|z: int|
                old(self)@.len() <= z < final(self)@.len() ==> #[trigger] final(self)@.root(z)
                    == z,
    {
        let ghost f = self@;
        let n = self.len();
        let mut i: usize = n;
        while i < n + size
            invariant
                n == f.len(),
                n <= i <= n + size,
                n + size <= usize::MAX,
                self@ == f.grow((i - n) as nat),
            decreases n + size - i,
        {
            self.parents.push(i);
            self.ranks.push(0);
            self.level = Ghost(self.level@.push(0nat));
            i += 1;
            assert(self@.parent =~= f.grow((i - n) as nat).parent);
            assert(self@.rank =~= f.grow((i - n) as nat).rank);
            assert(self@.level =~= f.grow((i - n) as nat).level);
        }
        proof {
            lemma_grow(f, size as nat);
        }
    }

    /// Finds the representative of `element`'s set, splitting the walk on the way:
    /// each node passed is re-pointed at its grandparent. No set changes.
    pub fn find(&mut self, element: usize) -> (r: usize)
        requires
            old(self)@.wf(),
            element < old(self)@.len(),
        ensures
            r == old(self)@.root(element as int),
            final(self)@ == old(self)@.split(element as int),
            final(self)@.wf(),
            forall|z: int|
                old(self)@.contains(z) ==> #[trigger] final(self)@.root(z) == old(self)@.root(z),
    {
        let ghost f = self@;
        let ghost x = element as int;
        let mut element = element;
        let mut parent = self.parent(element);
        while element != parent
            invariant
                f.wf(),
                f.contains(x),
                f.contains(element as int),
                f.on_path(x, element as int),
                f.root(element as int) == f.root(x),
                parent == f.parent[element as int],
                self@.len() == f.len(),
                self@.rank == f.rank,
                self@.level == f.level,
                forall|y: int|
                    f.contains(y) ==> #[trigger] self@.parent[y] == if f.on_path(x, y) && !f.on_path(
                        element as int,
                        y,
                    ) {
                        f.parent[f.parent[y] as int]
                    } else {
                        f.parent[y]
                    },
            decreases f.level[element as int],
        {
            let ghost e = element as int;
            let ghost q = parent as int;
            assert(f.steps_down(e));
            assert(f.on_path(q, q));
            assert(f.on_path(e, q));
            let next_parent = self.parent(parent);
            self.parents.set(element, next_parent);
            element = parent;
            parent = next_parent;
            proof {
                assert forall|y: int| f.on_path(e, y) implies (y == e || f.on_path(q, y)) by {}
                assert(f.on_path(x, q)) by {
                    lemma_on_path_trans(f, x, e, q);
                }
                lemma_on_path_level(f, x, q);
                assert(!f.on_path(q, e)) by {
                    if f.on_path(q, e) {
                        lemma_on_path_level(f, q, e);
                    }
                }
            }
        }
        proof {
            lemma_split(f, x);
            assert forall|y: int| f.on_path(element as int, y) implies y == element as int by {}
            assert(self@.parent =~= f.split(x).parent);
        }
        element
    }

    /// Joins the sets of `a` and `b` by rank, after finding both representatives;
    /// `false` when they were already one set.
    pub fn union(&mut self, a: usize, b: usize) -> (r: bool)
        requires
            old(self)@.wf(),
            a < old(self)@.len(),
            b < old(self)@.len(),
        ensures
            r == !old(self)@.same_set(a as int, b as int),
            final(self)@ == old(self)@.union(a as int, b as int),
            final(self)@.wf(),
            forall|z: int|
                old(self)@.contains(z) ==> #[trigger] final(self)@.root(z) == if old(
                    self,
                )@.same_set(z, a as int) || old(self)@.same_set(z, b as int) {
                    old(self)@.winner(old(self)@.root(a as int), old(self)@.root(b as int))
                } else {
                    old(self)@.root(z)
                },
    {
        let ghost f = self@;
        proof {
            lemma_union(f, a as int, b as int);
        }
        let rep_a = self.find(a);
        let rep_b = self.find(b);

        if rep_a == rep_b {
            return false;
        }
        proof {
            lemma_root(f, a as int);
            lemma_root(f, b as int);
        }
        let rank_a = self.ranks[rep_a];
        let rank_b = self.ranks[rep_b];

        if rank_a > rank_b {
            self.set_parent(rep_b, rep_a);
        } else if rank_a < rank_b {
            self.set_parent(rep_a, rep_b);
        } else {
            self.set_parent(rep_a, rep_b);
            self.increment_rank(rep_b);
        }
        true
    }

    /// Whether `a` and `b` have one representative; splits both walks as `find` does.
    pub fn in_same_set(&mut self, a: usize, b: usize) -> (r: bool)
        requires
            old(self)@.wf(),
            a < old(self)@.len(),
            b < old(self)@.len(),
        ensures
            r == old(self)@.same_set(a as int, b as int),
            a == b ==> r,
            final(self)@ == old(self)@.split(a as int).split(b as int),
            final(self)@.wf(),
            forall|z: int|
                old(self)@.contains(z) ==> #[trigger] final(self)@.root(z) == old(self)@.root(z),
    {
        self.find(a) == self.find(b)
    }

    /// The raw parent pointer of `element`, without walking to the root.
    pub fn parent(&self, element: usize) -> (r: usize)
        requires
            element < self@.len(),
        ensures
            r == self@.parent[element as int],
    {
        self.parents[element]
    }

    /// Points `element` at `parent`. The new parent must not lie in `element`'s
    /// subtree (unless it is `element` itself, which makes `element` a root), so
    /// that the structure stays a forest: `element`'s subtree moves to the set of
    /// `parent`, and every other id keeps its representative.
    pub fn set_parent(&mut self, element: usize, parent: usize)
        requires
            old(self)@.wf(),
            element < old(self)@.len(),
            parent < old(self)@.len(),
            parent == element || !old(self)@.on_path(parent as int, element as int),
        ensures
            final(self)@ == old(self)@.reparent(element as int, parent as int),
            final(self)@.wf(),
            forall|z: int|
                old(self)@.contains(z) ==> #[trigger] final(self)@.root(z) == if old(
                    self,
                )@.on_path(z, element as int) {
                    if parent == element {
                        element as int
                    } else {
                        old(self)@.root(parent as int)
                    }
                } else {
                    old(self)@.root(z)
                },
    {
        let ghost f = self@;
        proof {
            lemma_reparent_wf(f, element as int, parent as int);
            assert forall|z: int| f.contains(z) implies #[trigger] f.reparent(
                element as int,
                parent as int,
            ).root(z) == if f.on_path(z, element as int) {
                if parent == element {
                    element as int
                } else {
                    f.root(parent as int)
                }
            } else {
                f.root(z)
            } by {
                lemma_reparent_root(f, element as int, parent as int, z);
            }
        }
        self.parents.set(element, parent);
        self.level = Ghost(f.reparent(element as int, parent as int).level);
    }

    /// The rank of `element` grows by one, saturating at the largest `usize`.
    fn increment_rank(&mut self, element: usize)
        requires
            old(self)@.wf(),
            element < old(self)@.len(),
        ensures
            final(self)@ == old(self)@.bump_rank(element as int),
            final(self)@.wf(),
    {
        self.ranks.set(element, self.ranks[element].saturating_add(1));
    }
}

} // verus!
