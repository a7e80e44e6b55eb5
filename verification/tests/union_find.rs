use percolation::UnionFind;

#[test]
fn new_forest_has_every_index_alone() {
    let mut uf = UnionFind::new(5);
    for x in 0..5usize {
        assert_eq!(uf.find(x), x);
    }
    for x in 0..5usize {
        for y in 0..5usize {
            assert_eq!(uf.connected(x, y), x == y);
        }
    }
}

#[test]
fn empty_forest_can_be_made() {
    let _ = UnionFind::new(0);
}

#[test]
fn union_joins_two_classes() {
    let mut uf = UnionFind::new(4);
    uf.union(0, 1);
    assert!(uf.connected(0, 1));
    assert!(!uf.connected(0, 2));
    assert!(!uf.connected(1, 3));
    uf.union(2, 3);
    assert!(uf.connected(2, 3));
    assert!(!uf.connected(1, 2));
    uf.union(1, 2);
    for x in 0..4usize {
        for y in 0..4usize {
            assert!(uf.connected(x, y));
        }
    }
}

#[test]
fn equal_ranks_keep_the_representative_of_the_first() {
    let mut uf = UnionFind::new(4);
    uf.union(0, 1);
    assert_eq!(uf.find(0), 0);
    assert_eq!(uf.find(1), 0);
    uf.union(3, 2);
    assert_eq!(uf.find(2), 3);
    assert_eq!(uf.find(3), 3);
    uf.union(2, 1);
    for x in 0..4usize {
        assert_eq!(uf.find(x), 3);
    }
}

#[test]
fn lower_rank_goes_under_higher_rank() {
    let mut uf = UnionFind::new(3);
    uf.union(0, 1);
    uf.union(2, 1);
    assert_eq!(uf.find(2), 0);
    assert_eq!(uf.find(1), 0);
    let mut uf = UnionFind::new(3);
    uf.union(0, 1);
    uf.union(1, 2);
    assert_eq!(uf.find(2), 0);
    assert_eq!(uf.find(0), 0);
}

#[test]
fn union_of_one_class_changes_nothing() {
    let mut uf = UnionFind::new(3);
    uf.union(0, 1);
    uf.union(1, 0);
    uf.union(0, 0);
    uf.union(2, 2);
    assert_eq!(uf.find(0), 0);
    assert_eq!(uf.find(1), 0);
    assert_eq!(uf.find(2), 2);
    assert!(!uf.connected(0, 2));
}

#[test]
fn connected_is_symmetric() {
    let mut uf = UnionFind::new(6);
    uf.union(0, 3);
    uf.union(4, 5);
    uf.union(3, 5);
    for a in 0..6usize {
        for b in 0..6usize {
            let ab = uf.connected(a, b);
            let ba = uf.connected(b, a);
            assert_eq!(ab, ba);
        }
    }
    assert!(uf.connected(0, 4));
    assert!(!uf.connected(1, 2));
}

#[test]
fn find_keeps_the_classes() {
    let mut uf = UnionFind::new(8);
    uf.union(0, 1);
    uf.union(2, 3);
    uf.union(0, 2);
    uf.union(4, 5);
    uf.union(6, 7);
    uf.union(4, 6);
    uf.union(0, 4);
    let root = uf.find(7);
    assert_eq!(root, 0);
    for x in 0..8usize {
        assert_eq!(uf.find(x), root);
        assert_eq!(uf.find(x), root);
    }
}

#[test]
fn find_agrees_with_a_table_of_classes() {
    let n = 40usize;
    let mut uf = UnionFind::new(n);
    let mut class: Vec<usize> = (0..n).collect();
    let mut state = 12345u64;
    for _ in 0..60 {
        state = state.wrapping_mul(6364136223846793005).wrapping_add(1442695040888963407);
        let x = ((state >> 33) % n as u64) as usize;
        state = state.wrapping_mul(6364136223846793005).wrapping_add(1442695040888963407);
        let y = ((state >> 33) % n as u64) as usize;
        uf.union(x, y);
        let (from, to) = (class[y], class[x]);
        for c in class.iter_mut() {
            if *c == from {
                *c = to;
            }
        }
        for a in 0..n {
            for b in 0..n {
                assert_eq!(uf.connected(a, b), class[a] == class[b]);
            }
            let r = uf.find(a);
            assert_eq!(class[r], class[a]);
            assert_eq!(uf.find(r), r);
        }
    }
}
