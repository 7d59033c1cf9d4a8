//! The mathematical model of a union-find structure.
//!
//! A [`Forest`] holds the parent pointers and the ranks of the ids `0..len`,
//! together with a ghost `level` for each id. In a well-formed forest the level
//! strictly drops from a node to its parent, so every walk upward ends at a root,
//! and the root reached from `x` is the representative of `x`'s set.
use vstd::prelude::*;

verus! {

/// Parent pointers, ranks and the ghost levels that witness acyclicity.
pub struct Forest {
    pub parent: Seq<usize>,
    pub rank: Seq<usize>,
    pub level: Seq<nat>,
}

/// One more than `r`, clamped at the largest `usize`.
pub open spec fn saturating_inc(r: usize) -> usize {
    if r == usize::MAX {
        r
    } else {
        (r + 1) as usize
    }
}

impl Forest {
    pub open spec fn len(self) -> nat {
        self.parent.len()
    }

    pub open spec fn contains(self, x: int) -> bool {
        0 <= x < self.len()
    }

    pub open spec fn is_root(self, x: int) -> bool {
        self.parent[x] as int == x
    }

    /// `x` has a parent other than itself, and that parent sits at a lower level.
    pub open spec fn steps_down(self, x: int) -> bool {
        &&& self.contains(x)
        &&& !self.is_root(x)
        &&& self.level[self.parent[x] as int] < self.level[x]
    }

    /// The ids fit in a `usize`, every parent is an id of the forest, and every edge to a parent other than
    /// the node itself goes down a level: no walk upward runs in a cycle.
    pub open spec fn wf(self) -> bool {
        &&& self.len() <= usize::MAX
        &&& self.rank.len() == self.len()
        &&& self.level.len() == self.len()
        &&& forall|x: int|
            self.contains(x) ==> {
                &&& #[trigger] self.parent[x] < self.len()
                &&& (self.parent[x] as int != x ==> self.level[self.parent[x] as int]
                    < self.level[x])
            }
    }

    /// The representative of `x`: the root at the end of the walk upward from `x`.
    pub open spec fn root(self, x: int) -> int
        decreases self.level[x],
    {
        if self.steps_down(x) {
            self.root(self.parent[x] as int)
        } else {
            x
        }
    }

    /// `y` lies on the walk upward from `x`, both ends included.
    pub open spec fn on_path(self, x: int, y: int) -> bool
        decreases self.level[x],
    {
        x == y || (self.steps_down(x) && self.on_path(self.parent[x] as int, y))
    }

    pub open spec fn same_set(self, a: int, b: int) -> bool {
        self.root(a) == self.root(b)
    }

    /// Path splitting from `x`: each node on the walk from `x` is re-pointed at its
    /// grandparent.
    pub open spec fn split(self, x: int) -> Forest {
        Forest {
            parent: Seq::new(
                self.len(),
                |y: int|
                    if self.on_path(x, y) {
                        self.parent[self.parent[y] as int]
                    } else {
                        self.parent[y]
                    },
            ),
            rank: self.rank,
            level: self.level,
        }
    }

    /// `e` is re-pointed at `p`; everything at or below `e` is lifted above `p`.
    pub open spec fn reparent(self, e: int, p: int) -> Forest {
        Forest {
            parent: self.parent.update(e, p as usize),
            rank: self.rank,
            level: Seq::new(
                self.len(),
                |y: int|
                    if self.on_path(y, e) {
                        (self.level[y] + self.level[p] + 1) as nat
                    } else {
                        self.level[y]
                    },
            ),
        }
    }

    /// The rank of `r` grows by one, saturating.
    pub open spec fn bump_rank(self, r: int) -> Forest {
        Forest {
            parent: self.parent,
            rank: self.rank.update(r, saturating_inc(self.rank[r])),
            level: self.level,
        }
    }

    /// Which of two roots survives their merge: the one of strictly greater rank,
    /// and `rb` on equal ranks.
    pub open spec fn winner(self, ra: int, rb: int) -> int {
        if self.rank[ra] > self.rank[rb] {
            ra
        } else {
            rb
        }
    }

    /// Union by rank of the trees of the roots `ra` and `rb`.
    pub open spec fn link(self, ra: int, rb: int) -> Forest {
        if ra == rb {
            self
        } else if self.rank[ra] > self.rank[rb] {
            self.reparent(rb, ra)
        } else if self.rank[ra] < self.rank[rb] {
            self.reparent(ra, rb)
        } else {
            self.reparent(ra, rb).bump_rank(rb)
        }
    }

    /// The forest after `union(a, b)`: both walks are split, then the roots linked.
    pub open spec fn union(self, a: int, b: int) -> Forest {
        self.split(a).split(b).link(self.root(a), self.root(b))
    }

    /// `k` new singletons of rank 0 appended.
    pub open spec fn grow(self, k: nat) -> Forest {
        Forest {
            parent: self.parent + Seq::new(k, |i: int| (self.len() + i) as usize),
            rank: self.rank + Seq::new(k, |i: int| 0usize),
            level: self.level + Seq::new(k, |i: int| 0nat),
        }
    }

    /// One singleton for each given rank.
    pub open spec fn singletons(ranks: Seq<usize>) -> Forest {
        Forest {
            parent: Seq::new(ranks.len(), |i: int| i as usize),
            rank: ranks,
            level: Seq::new(ranks.len(), |i: int| 0nat),
        }
    }
}

/// Along a walk upward the level never rises, and the walk stays in the forest.
pub proof fn lemma_on_path_level(f: Forest, x: int, y: int)
    requires
        f.wf(),
        f.contains(x),
        f.on_path(x, y),
    ensures
        f.contains(y),
        f.level[y] <= f.level[x],
    decreases f.level[x],
{
    if x != y {
        lemma_on_path_level(f, f.parent[x] as int, y);
    }
}

/// The representative of `x` is a root of the forest on the walk from `x`.
pub proof fn lemma_root(f: Forest, x: int)
    requires
        f.wf(),
        f.contains(x),
    ensures
        f.contains(f.root(x)),
        f.is_root(f.root(x)),
        f.on_path(x, f.root(x)),
    decreases f.level[x],
{
    if f.steps_down(x) {
        lemma_root(f, f.parent[x] as int);
    }
}

/// A node and its parent have the same representative.
pub proof fn lemma_root_parent(f: Forest, x: int)
    requires
        f.wf(),
        f.contains(x),
    ensures
        f.root(f.parent[x] as int) == f.root(x),
{
}

/// For a root `r`, the nodes whose walk passes `r` are exactly those of `r`'s set.
pub proof fn lemma_on_path_root(f: Forest, z: int, r: int)
    requires
        f.wf(),
        f.contains(z),
        f.contains(r),
        f.is_root(r),
    ensures
        f.on_path(z, r) == (f.root(z) == r),
    decreases f.level[z],
{
    if f.steps_down(z) {
        lemma_on_path_root(f, f.parent[z] as int, r);
    }
}

/// Re-pointing nodes within their own trees, without making new roots, keeps
/// every representative.
pub proof fn lemma_redirect(f: Forest, g: Forest, z: int)
    requires
        f.wf(),
        g.wf(),
        g.len() == f.len(),
        g.contains(z),
        forall|y: int| #[trigger] g.contains(y) && g.is_root(y) ==> f.is_root(y),
        forall|y: int| #[trigger] g.contains(y) ==> f.root(g.parent[y] as int) == f.root(y),
    ensures
        g.root(z) == f.root(z),
    decreases g.level[z],
{
    if g.steps_down(z) {
        lemma_redirect(f, g, g.parent[z] as int);
    } else {
        assert(g.contains(z) && g.is_root(z));
    }
}

/// Path splitting keeps the forest well formed and every representative.
pub proof fn lemma_split(f: Forest, x: int)
    requires
        f.wf(),
        f.contains(x),
    ensures
        f.split(x).wf(),
        f.split(x).len() == f.len(),
        forall|z: int| f.contains(z) ==> #[trigger] f.split(x).root(z) == f.root(z),
{
    let g = f.split(x);
    assert forall|y: int| f.contains(y) implies {
        &&& #[trigger] g.parent[y] < g.len()
        &&& (g.parent[y] as int != y ==> g.level[g.parent[y] as int] < g.level[y])
        &&& f.root(g.parent[y] as int) == f.root(y)
        &&& (g.is_root(y) ==> f.is_root(y))
    } by {
        let p = f.parent[y] as int;
        lemma_root_parent(f, y);
        lemma_root_parent(f, p);
    }
    assert forall|z: int| f.contains(z) implies #[trigger] g.root(z) == f.root(z) by {
        lemma_redirect(f, g, z);
    }
}

/// Re-pointing `e` at a node `p` outside its subtree, or at itself, keeps the
/// forest well formed.
pub proof fn lemma_reparent_wf(f: Forest, e: int, p: int)
    requires
        f.wf(),
        f.contains(e),
        f.contains(p),
        p == e || !f.on_path(p, e),
    ensures
        f.reparent(e, p).wf(),
        f.reparent(e, p).len() == f.len(),
{
    let g = f.reparent(e, p);
    assert forall|y: int| f.contains(y) implies {
        &&& #[trigger] g.parent[y] < g.len()
        &&& (g.parent[y] as int != y ==> g.level[g.parent[y] as int] < g.level[y])
    } by {
        if y == e {
            assert(f.on_path(e, e));
            if p != e {
                assert(g.level[p] == f.level[p]);
            }
        } else {
            assert(g.parent[y] == f.parent[y]);
            let q = f.parent[y] as int;
            if q != y {
                assert(f.steps_down(y));
                assert(f.on_path(y, e) == f.on_path(q, e));
                assert(g.level[q] < g.level[y]);
            }
        }
    }
}

/// After re-pointing `e` at `p`, the nodes of `e`'s subtree take the
/// representative of `p` (or `e` itself when `p == e`); all others keep theirs.
pub proof fn lemma_reparent_root(f: Forest, e: int, p: int, z: int)
    requires
        f.wf(),
        f.contains(e),
        f.contains(p),
        f.contains(z),
        p == e || !f.on_path(p, e),
    ensures
        f.reparent(e, p).root(z) == if f.on_path(z, e) {
            if p == e {
                e
            } else {
                f.root(p)
            }
        } else {
            f.root(z)
        },
    decreases f.reparent(e, p).level[z],
{
    let g = f.reparent(e, p);
    lemma_reparent_wf(f, e, p);
    assert(f.on_path(e, e));
    if z == e {
        if p != e {
            assert(g.parent[e] as int == p);
            assert(g.steps_down(e));
            lemma_reparent_root(f, e, p, p);
        } else {
            assert(g.is_root(e));
        }
    } else if f.is_root(z) {
        assert(g.parent[z] == f.parent[z]);
        assert(!f.steps_down(z));
        assert(g.is_root(z));
    } else {
        let q = f.parent[z] as int;
        assert(g.parent[z] == f.parent[z]);
        assert(f.steps_down(z));
        assert(g.steps_down(z));
        assert(f.on_path(z, e) == f.on_path(q, e));
        lemma_root_parent(f, z);
        lemma_reparent_root(f, e, p, q);
    }
}

/// The representatives depend on the parents and levels alone, not on the ranks.
pub proof fn lemma_root_ignores_rank(f: Forest, g: Forest, z: int)
    requires
        f.parent == g.parent,
        f.level == g.level,
    ensures
        g.root(z) == f.root(z),
    decreases f.level[z],
{
    if f.steps_down(z) {
        lemma_root_ignores_rank(f, g, f.parent[z] as int);
    }
}

/// Appending singletons keeps the forest well formed and every earlier
/// representative; each new id is its own representative.
pub proof fn lemma_grow(f: Forest, k: nat)
    requires
        f.wf(),
        f.len() + k <= usize::MAX,
    ensures
        f.grow(k).wf(),
        f.grow(k).len() == f.len() + k,
        forall|z: int| f.contains(z) ==> #[trigger] f.grow(k).root(z) == f.root(z),
        forall|z: int| f.len() <= z < f.len() + k ==> #[trigger] f.grow(k).root(z) == z,
{
    let g = f.grow(k);
    assert forall|x: int| g.contains(x) implies {
        &&& #[trigger] g.parent[x] < g.len()
        &&& (g.parent[x] as int != x ==> g.level[g.parent[x] as int] < g.level[x])
    } by {
        if x < f.len() {
            assert(g.parent[x] == f.parent[x]);
            assert(g.level[x] == f.level[x]);
            if g.parent[x] as int != x {
                assert(g.level[g.parent[x] as int] == f.level[f.parent[x] as int]);
            }
        } else {
            assert(g.parent[x] as int == x);
        }
    }
    assert forall|z: int| f.contains(z) implies #[trigger] g.root(z) == f.root(z) by {
        lemma_grow_root(f, k, z);
    }
    assert forall|z: int| f.len() <= z < f.len() + k implies #[trigger] g.root(z) == z by {
        assert(g.is_root(z));
    }
}

proof fn lemma_grow_root(f: Forest, k: nat, z: int)
    requires
        f.wf(),
        f.contains(z),
    ensures
        f.grow(k).root(z) == f.root(z),
    decreases f.level[z],
{
    let g = f.grow(k);
    assert(g.parent[z] == f.parent[z] && g.level[z] == f.level[z]);
    if f.steps_down(z) {
        let q = f.parent[z] as int;
        assert(g.level[q] == f.level[q]);
        lemma_grow_root(f, k, q);
    }
}

/// Linking two distinct roots keeps the forest well formed; the loser's set takes
/// the winner as representative and every other set keeps its own.
pub proof fn lemma_link(f: Forest, ra: int, rb: int)
    requires
        f.wf(),
        f.contains(ra),
        f.contains(rb),
        f.is_root(ra),
        f.is_root(rb),
    ensures
        f.link(ra, rb).wf(),
        f.link(ra, rb).len() == f.len(),
        forall|z: int|
            f.contains(z) ==> #[trigger] f.link(ra, rb).root(z) == if f.root(z) == ra || f.root(z)
                == rb {
                f.winner(ra, rb)
            } else {
                f.root(z)
            },
{
    if ra == rb {
        assert forall|z: int| f.contains(z) implies #[trigger] f.link(ra, rb).root(z) == if f.root(
            z,
        ) == ra || f.root(z) == rb {
            f.winner(ra, rb)
        } else {
            f.root(z)
        } by {
            lemma_root(f, z);
        }
    } else {
        let w = f.winner(ra, rb);
        let l = if w == ra {
            rb
        } else {
            ra
        };
        lemma_on_path_root(f, w, l);
        lemma_reparent_wf(f, l, w);
        let g = f.reparent(l, w);
        assert forall|z: int| f.contains(z) implies #[trigger] f.link(ra, rb).root(z) == if f.root(
            z,
        ) == ra || f.root(z) == rb {
            w
        } else {
            f.root(z)
        } by {
            lemma_on_path_root(f, z, l);
            lemma_reparent_root(f, l, w, z);
            lemma_root_ignores_rank(g, f.link(ra, rb), z);
        }
    }
}

/// `union(a, b)` keeps the forest well formed and the ranks from falling; the sets
/// of `a` and `b` merge under the winner of their roots, and every other set stays.
pub proof fn lemma_union(f: Forest, a: int, b: int)
    requires
        f.wf(),
        f.contains(a),
        f.contains(b),
    ensures
        f.union(a, b).wf(),
        f.union(a, b).len() == f.len(),
        forall|z: int|
            f.contains(z) ==> #[trigger] f.union(a, b).root(z) == if f.same_set(z, a)
                || f.same_set(z, b) {
                f.winner(f.root(a), f.root(b))
            } else {
                f.root(z)
            },
        forall|z: int|
            f.contains(z) ==> f.rank[z] <= #[trigger] f.union(a, b).rank[z],
{
    let s1 = f.split(a);
    lemma_split(f, a);
    let s = s1.split(b);
    lemma_split(s1, b);
    lemma_root(f, a);
    lemma_root(f, b);
    lemma_link(s, f.root(a), f.root(b));
}

/// A walk passing `y` and then `z` passes `z`.
pub proof fn lemma_on_path_trans(f: Forest, x: int, y: int, z: int)
    requires
        f.on_path(x, y),
        f.on_path(y, z),
    ensures
        f.on_path(x, z),
    decreases f.level[x],
{
    if x != y {
        lemma_on_path_trans(f, f.parent[x] as int, y, z);
    }
}

} // verus!
