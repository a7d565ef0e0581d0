use graph_reduce::unify::UnionFind;

#[test]
fn new_table_has_singleton_classes() {
    let mut table = UnionFind::new(4);
    assert_eq!(table.len(), 4);
    for k in 0..4 {
        assert_eq!(table.find(k), k);
    }
    assert!(!table.same(0, 1));
    assert!(table.same(2, 2));
}

#[test]
fn union_merges_classes() {
    let mut table = UnionFind::new(5);
    table.union(0, 1);
    table.union(3, 4);
    assert!(table.same(0, 1));
    assert!(table.same(3, 4));
    assert!(!table.same(1, 3));
    assert!(!table.same(2, 0));
    table.union(1, 4);
    assert!(table.same(0, 3));
    assert!(!table.same(2, 3));
}

#[test]
fn union_of_equal_ranks_keeps_the_second_head() {
    let mut table = UnionFind::new(3);
    table.union(0, 1);
    assert_eq!(table.find(0), 1);
    assert_eq!(table.find(1), 1);
}

#[test]
fn union_keeps_the_head_of_higher_rank() {
    let mut table = UnionFind::new(3);
    table.union(0, 1);
    table.union(1, 2);
    assert_eq!(table.find(2), 1);
    table.union(2, 0);
    assert_eq!(table.find(0), 1);
}

#[test]
fn union_is_idempotent() {
    let mut table = UnionFind::new(3);
    table.union(0, 1);
    let head = table.find(0);
    table.union(0, 1);
    table.union(1, 0);
    assert_eq!(table.find(0), head);
    assert_eq!(table.find(1), head);
    assert_eq!(table.find(2), 2);
}

#[test]
fn find_after_long_chain() {
    let mut table = UnionFind::new(8);
    table.union(0, 1);
    table.union(2, 3);
    table.union(4, 5);
    table.union(6, 7);
    table.union(1, 3);
    table.union(5, 7);
    table.union(3, 7);
    let head = table.find(0);
    for k in 0..8 {
        assert_eq!(table.find(k), head);
    }
    assert_eq!(head, 7);
}

#[test]
fn empty_table() {
    let table = UnionFind::new(0);
    assert_eq!(table.len(), 0);
}
