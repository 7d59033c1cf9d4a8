use union_find::UnionFind;

#[test]
fn test_union_find() {
    let mut uf = UnionFind::with_size(7);
    uf.extend(1);
    assert_eq!(uf.len(), 8);
    assert!(!uf.is_empty());
    assert!(uf.union(0, 1));
    assert!(uf.union(1, 2));
    assert!(uf.union(4, 3));
    assert!(uf.union(3, 2));
    assert!(!uf.union(0, 3));

    assert!(uf.in_same_set(0, 1));
    assert!(uf.in_same_set(0, 2));
    assert!(uf.in_same_set(0, 3));
    assert!(uf.in_same_set(0, 4));
    assert!(!uf.in_same_set(0, 5));

    uf.union(5, 3);
    assert!(uf.in_same_set(0, 5));

    uf.union(6, 7);
    assert!(uf.in_same_set(6, 7));
    assert!(!uf.in_same_set(5, 7));

    uf.union(0, 7);
    assert!(uf.in_same_set(5, 7));
}

#[test]
fn empty_structure() {
    let mut uf = UnionFind::with_size(0);
    assert_eq!(uf.len(), 0);
    assert!(uf.is_empty());
    uf.extend(0);
    assert!(uf.is_empty());
    let uf = UnionFind::with_ranks(Vec::new());
    assert!(uf.is_empty());
}

#[test]
fn singletons_are_their_own_roots() {
    let mut uf = UnionFind::with_size(4);
    for e in 0..4 {
        assert_eq!(uf.parent(e), e);
        assert_eq!(uf.find(e), e);
    }
    assert!(!uf.in_same_set(0, 3));
}

#[test]
fn in_same_set_reflexive() {
    let mut uf = UnionFind::with_size(5);
    uf.union(1, 2);
    for e in 0..5 {
        assert!(uf.in_same_set(e, e));
    }
}

#[test]
fn in_same_set_symmetric() {
    let mut uf = UnionFind::with_size(6);
    uf.union(0, 1);
    uf.union(2, 3);
    uf.union(1, 3);
    for a in 0..6 {
        for b in 0..6 {
            assert_eq!(uf.in_same_set(a, b), uf.in_same_set(b, a));
        }
    }
}

#[test]
fn union_twice_is_idempotent() {
    let mut uf = UnionFind::with_size(4);
    assert!(uf.union(2, 3));
    let (ra, rb) = (uf.find(2), uf.find(3));
    assert!(!uf.union(2, 3));
    assert_eq!(uf.find(2), ra);
    assert_eq!(uf.find(3), rb);
}

#[test]
fn chained_unions_are_transitive() {
    let mut uf = UnionFind::with_size(5);
    assert!(uf.union(0, 2));
    assert!(uf.union(2, 4));
    assert!(uf.in_same_set(0, 4));
    assert!(!uf.in_same_set(0, 1));
}

#[test]
fn extend_keeps_existing_sets() {
    let mut uf = UnionFind::with_size(3);
    uf.union(0, 1);
    let before: Vec<usize> = (0..3).map(|e| uf.find(e)).collect();
    uf.extend(4);
    assert_eq!(uf.len(), 7);
    for e in 0..3 {
        assert_eq!(uf.find(e), before[e]);
    }
    for e in 3..7 {
        assert_eq!(uf.parent(e), e);
    }
    assert!(uf.in_same_set(0, 1));
    assert!(!uf.in_same_set(0, 2));
}

#[test]
fn equal_ranks_demote_the_first_root() {
    let mut uf = UnionFind::with_size(2);
    assert!(uf.union(0, 1));
    assert_eq!(uf.parent(0), 1);
    assert_eq!(uf.parent(1), 1);
}

#[test]
fn greater_rank_wins() {
    let mut uf = UnionFind::with_ranks(vec![2, 1, 0, 5]);
    assert!(uf.union(0, 1));
    assert_eq!(uf.parent(1), 0);
    assert_eq!(uf.parent(0), 0);
    assert!(uf.union(0, 3));
    assert_eq!(uf.parent(0), 3);
    assert_eq!(uf.find(1), 3);
}

#[test]
fn rank_saturates_instead_of_wrapping() {
    let mut uf = UnionFind::with_ranks(vec![usize::MAX; 3]);
    assert!(uf.union(0, 1));
    assert_eq!(uf.parent(0), 1);
    // The rank of 1 stays at the maximum, so the tie-break applies again.
    assert!(uf.union(2, 1));
    assert_eq!(uf.parent(2), 1);
    assert_eq!(uf.parent(1), 1);
}

#[test]
fn find_splits_the_walk() {
    let mut uf = UnionFind::with_size(5);
    uf.set_parent(0, 1);
    uf.set_parent(1, 2);
    uf.set_parent(2, 3);
    uf.set_parent(3, 4);
    assert_eq!(uf.find(0), 4);
    assert_eq!(uf.parent(0), 2);
    assert_eq!(uf.parent(1), 3);
    assert_eq!(uf.parent(2), 4);
    assert_eq!(uf.parent(3), 4);
    assert_eq!(uf.parent(4), 4);
    assert_eq!(uf.find(0), 4);
    assert_eq!(uf.parent(0), 4);
}

#[test]
fn set_parent_moves_a_subtree() {
    let mut uf = UnionFind::with_size(4);
    uf.set_parent(1, 0);
    uf.set_parent(0, 2);
    uf.set_parent(0, 0);
    assert!(!uf.in_same_set(1, 2));
    assert!(uf.in_same_set(1, 0));
    uf.set_parent(0, 2);
    assert!(uf.in_same_set(1, 2));
    // The walk from 1 was split: 1 now points at 2 directly.
    assert_eq!(uf.parent(1), 2);
    assert!(!uf.in_same_set(3, 0));
}

#[test]
fn clone_is_independent() {
    let mut uf = UnionFind::with_size(3);
    let copy = uf.clone();
    uf.union(0, 1);
    assert_eq!(uf.parent(0), 1);
    assert_eq!(copy.parent(0), 0);
    assert_eq!(copy.len(), 3);
}
