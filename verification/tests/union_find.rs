use verbum::union_find::UnionFind;

#[test]
fn creation() {
    let uf = UnionFind::with_size(10);
    assert_eq!(uf.size(), 10)
}

#[test]
fn union_and_find() {
    let mut uf = UnionFind::with_size(4);
    uf.union(0, 2);
    uf.union(3, 1);
    uf.union(1, 0);
    let r0 = uf.find(0);
    assert_eq!(r0, uf.find(1));
    assert_eq!(r0, uf.find(2));
    assert_eq!(r0, uf.find(3));
}

#[test]
fn add_set() {
    let mut uf = UnionFind::with_size(1);
    let new_id = uf.add();
    assert_eq!(new_id, 1);
    assert_eq!(uf.size(), 2);
}

#[test]
fn compression() {
    let mut uf = UnionFind::with_size(3);
    uf.union(0, 1);
    uf.union(1, 2);
    assert_eq!(uf.parent(0), 1);
    uf.find(0);
    assert_eq!(uf.parent(0), 2);
}
