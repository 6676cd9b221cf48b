use data_structure::bitree::BIT;
use data_structure::leftist_tree::LeftistTree;
use data_structure::leftist_tree::PstLeftistTree;
use data_structure::rbtree::RBTreeMap;
use data_structure::segment_tree::AddOp;
use data_structure::segment_tree::MaxOp;
use data_structure::segment_tree::PstSegTree;
use data_structure::segment_tree::SegTree;
use data_structure::sparse_table::SparseTable;
use data_structure::splay_tree::SplayTreeMap;
use data_structure::treap::TreapMap;
use data_structure::treap::TreapSet;
use rand::Rng;
use std::cmp::Reverse;
use std::collections::BTreeMap;
use std::collections::BTreeSet;
use std::collections::BinaryHeap;

#[test]
fn test_leftist_tree() {
    let n = 10000;
    let mut heap = LeftistTree::new();
    let mut rng = rand::thread_rng();

    for _ in 0..n {
        heap.push(rng.gen_range(i32::MIN..i32::MAX));
    }
    for _ in 0..n {
        heap.pop();
    }

    let mut h1 = LeftistTree::new();
    let mut h2 = BinaryHeap::new();

    for _ in 0..n {
        let r = rng.gen_range(i32::MIN..i32::MAX);
        h1.push(r);
        h2.push(Reverse(r));
    }
    for _ in 0..n {
        assert_eq!(h1.pop(), h2.pop().map(|x| x.0));
        assert_eq!(h1.len(), h2.len());
    }
}

#[test]
fn test_leftist_scenario() {
    let mut heap = LeftistTree::new();
    for v in [9, 1, 5, 3, 7] {
        heap.push(v);
    }
    let mut popped = Vec::new();
    for _ in 0..5 {
        popped.push(heap.pop().unwrap());
    }
    assert_eq!(popped, vec![1, 3, 5, 7, 9]);
    assert_eq!(heap.pop(), None);
}

#[test]
fn test_pst_leftist() {
    let mut heap = PstLeftistTree::new();
    heap.push(4);
    heap.push(2);
    heap.push(9);
    assert_eq!(heap.versions(), 3);
    assert_eq!(heap.peek_version(2), Some(2));
    assert_eq!(heap.pop(), Some(2));
    assert_eq!(heap.versions(), 4);
    // earlier versions still answer as they did
    assert_eq!(heap.peek_version(0), Some(4));
    assert_eq!(heap.peek_version(1), Some(2));
    assert_eq!(heap.peek_version(2), Some(2));
    assert_eq!(heap.peek_version(3), Some(4));
    assert_eq!(heap.pop(), Some(4));
    assert_eq!(heap.pop(), Some(9));
    assert_eq!(heap.pop(), None);
}

#[test]
fn test_bit() {
    let mut b = BIT::new(10);
    b.update(1, 10);
    b.update(2, 1);
    b.update(3, 15);
    assert_eq!(b.query(2, 3), 1);
    b.update(6, 2);
    assert_eq!(b.query(3, 7), 17);
}

#[test]
fn test_treap() {
    let mut v: Vec<(i32, i32)> = (0..10).zip(0..10).collect();
    let mut t = TreapMap::new();

    for (k, val) in v.iter().rev() {
        t.insert(*k, *val);
    }
    assert!(t.remove(&0));
    assert!(t.remove(&5));

    v.remove(5);
    v.remove(0);

    for (i, x) in t.iter().into_iter().enumerate() {
        assert_eq!(x, v[i]);
    }
    assert_eq!(v, t.into_iter());

    let mut rng = rand::thread_rng();
    let n = 10000;
    let mut tr = TreapSet::new();
    let mut b = BTreeSet::new();

    for _ in 0..n {
        let r = rng.gen_range(i32::MIN..i32::MAX);
        tr.insert(r);
        b.insert(r);
    }

    for _ in 0..n {
        let r = rng.gen_range(i32::MIN..i32::MAX);
        assert_eq!(b.remove(&r), tr.remove(&r));
        assert_eq!(b.remove(&r), tr.remove(&r));
    }
}

#[test]
fn test_treap_from() {
    let v: Vec<(i32, i32)> = (0..50).map(|k| (k, k * 2)).collect();
    let t = TreapMap::from(v.clone());
    for (k, val) in &v {
        assert_eq!(t.get(k), Some(val));
    }
    assert_eq!(t.into_iter(), v);

    let s = TreapSet::from((0..20).collect());
    for k in 0..20 {
        assert!(s.get(&k).is_some());
    }
    assert!(s.get(&20).is_none());
    assert_eq!(s.iter(), (0..20).collect::<Vec<i32>>());
}

#[test]
fn test_rbtree() {
    let mut s = RBTreeMap::new();
    let mut b = BTreeMap::new();

    for i in 0..2000 {
        let k = rand::random::<i32>();
        b.insert(k, i);
        s.insert(k, i);
        assert_eq!(b.len(), s.len());
        assert!(s.check_rb());
    }

    for _ in 0..2000 {
        let k = &rand::random::<i32>();
        assert_eq!(b.get(k), s.get(k));
    }

    for _ in 0..1000 {
        let k = rand::random::<i32>();
        assert_eq!(s.remove(&k), b.remove(&k).is_some());
        assert_eq!(s.len(), b.len());
        assert!(s.check_rb());
    }

    let n = 400000;
    let mut t = RBTreeMap::new();
    for _ in 0..n {
        t.insert(rand::random::<i32>(), ());
    }
    for _ in 0..n {
        t.remove(&rand::random::<i32>());
    }

    let mut t = BTreeMap::new();
    for _ in 0..n {
        t.insert(rand::random::<i32>(), ());
    }
    for _ in 0..n {
        t.remove(&rand::random::<i32>());
    }
}

#[test]
fn test_rb_scenario() {
    let mut t = RBTreeMap::new();
    for k in [5, 3, 8, 1, 4] {
        t.insert(k, k * 10);
    }
    assert_eq!(t.len(), 5);
    let keys: Vec<i32> = t.iter().into_iter().map(|p| p.0).collect();
    assert_eq!(keys, vec![1, 3, 4, 5, 8]);
    for k in [1, 3, 4, 5, 8] {
        assert_eq!(t.get(&k), Some(&(k * 10)));
    }
    assert!(t.check_rb());
    assert!(t.remove(&3));
    assert!(!t.remove(&3));
    assert_eq!(t.get(&3), None);
    assert_eq!(t.len(), 4);
    assert!(t.check_rb());
    let pairs = t.into_iter();
    assert_eq!(pairs, vec![(1, 10), (4, 40), (5, 50), (8, 80)]);
}

#[test]
fn test_map_oracle() {
    // each map variant against an ordered-map oracle over ten thousand
    // random operations
    let mut rng = rand::thread_rng();
    let mut rb = RBTreeMap::new();
    let mut sp = SplayTreeMap::new();
    let mut oracle = BTreeMap::new();
    for i in 0..10000i32 {
        let k = rng.gen_range(-500..500);
        match i % 3 {
            0 => {
                oracle.insert(k, i);
                rb.insert(k, i);
                sp.insert(k, i);
            },
            1 => {
                assert_eq!(rb.get(&k), oracle.get(&k));
                assert_eq!(sp.get(&k), oracle.get(&k));
            },
            _ => {
                let expect = oracle.remove(&k).is_some();
                assert_eq!(rb.remove(&k), expect);
                assert_eq!(sp.remove(&k), expect);
            },
        }
        assert_eq!(rb.len(), oracle.len());
        assert_eq!(sp.len(), oracle.len());
    }
    let sorted: Vec<(i32, i32)> = oracle.iter().map(|(k, v)| (*k, *v)).collect();
    assert_eq!(rb.into_iter(), sorted);
}

#[test]
fn test_splay() {
    let mut s = SplayTreeMap::new();
    let mut b = BTreeMap::new();

    for i in 0..2000 {
        let k = rand::random::<i32>();
        b.insert(k, i);
        s.insert(k, i);
        assert_eq!(b.len(), s.len());
    }

    for _ in 0..2000 {
        let k = &rand::random::<i32>();
        assert_eq!(b.get(k), s.get(k));
    }

    for _ in 0..1000 {
        let k = rand::random::<i32>();
        assert_eq!(s.remove(&k), b.remove(&k).is_some());
        assert_eq!(s.len(), b.len());
    }

    let n = 400000;
    let mut t = SplayTreeMap::new();
    for _ in 0..n {
        t.insert(rand::random::<i32>(), ());
    }
    for _ in 0..n {
        t.remove(&rand::random::<i32>());
    }
}

#[test]
fn test_segtree() {
    let mut seg = PstSegTree::new(0, 1000, AddOp);
    let v: Vec<i64> = vec![10, 20, 30, 50, 100];
    for (i, x) in v.into_iter().enumerate() {
        seg.insert(i, x);
    }
    assert_eq!(seg.query_nth(0, 10, 1), Some(10));
    assert_eq!(seg.query_nth(0, 10, 5), Some(100));
    assert_eq!(seg.query_nth(0, 10, 100), None);

    let v: Vec<i32> = (0..100).collect();
    let mut seg = SegTree::from(v, MaxOp);

    seg.insert(50, 1);
    assert_eq!(seg.query(45, 50), Some(49));
    assert_eq!(seg.query(0, 200), None);
    assert_eq!(seg.query(0, 100), Some(99));
    assert_eq!(seg.query(50, 51), Some(1));
}

#[test]
fn test_pst_scenario() {
    let mut seg = PstSegTree::new(0, 5, AddOp);
    seg.insert(0, 10i64);
    let before = seg.clone();
    seg.insert(1, 20);
    assert_eq!(seg.query(0, 2), Some(30));
    assert_eq!(before.query(0, 2), Some(10));
    // the version window picks keys added since an older version
    assert_eq!(seg.query_nth(1, 2, 1), Some(20));
    assert_eq!(seg.query_nth(1, 2, 2), None);
    assert_eq!(seg.query_nth(0, 2, 2), Some(20));
}

#[test]
fn test_bit_wraparound() {
    // counters are kept modulo two to the sixty-fourth
    let mut b = BIT::new(4);
    b.update(0, u64::MAX);
    b.update(0, 2);
    assert_eq!(b.query(0, 1), 1);
    b.update(1, 5);
    assert_eq!(b.query(0, 2), 6);
}

#[test]
fn test_segtree_sum_exact() {
    let mut seg = SegTree::new(6, AddOp);
    assert_eq!(seg.query(0, 6), None);
    seg.insert(1, 4i64);
    seg.insert(3, 7);
    seg.insert(4, -2);
    assert_eq!(seg.query(0, 6), Some(9));
    assert_eq!(seg.query(2, 4), Some(7));
    assert_eq!(seg.query(0, 1), None);
}

#[test]
fn test_treap_duplicate_rejected() {
    // the treap rejects a duplicate key instead of overwriting
    let mut t = TreapMap::new();
    assert!(t.insert(7, 1));
    assert!(!t.insert(7, 2));
    assert_eq!(t.get(&7), Some(&1));
    assert!(t.remove(&7));
    assert!(!t.remove(&7));
    assert!(t.insert(i32::MAX, 9));
    assert!(t.remove(&i32::MAX));
    assert_eq!(t.get(&i32::MAX), None);
}

#[test]
fn test_splay_scenario() {
    let mut s = SplayTreeMap::new();
    for k in [2, 9, 4] {
        s.insert(k, k + 100);
    }
    assert_eq!(s.get(&9), Some(&109));
    assert!(s.remove(&9));
    assert_eq!(s.get(&9), None);
    assert_eq!(s.get(&2), Some(&102));
    assert_eq!(s.get(&4), Some(&104));
    assert_eq!(s.len(), 2);
}

#[test]
fn test_leftist_merge() {
    let mut a = LeftistTree::new();
    let mut b = LeftistTree::new();
    for v in [6, 2] {
        a.push(v);
    }
    for v in [5, 1, 7] {
        b.push(v);
    }
    a.merge(b);
    assert_eq!(a.len(), 5);
    let mut popped = Vec::new();
    while let Some(v) = a.pop() {
        popped.push(v);
    }
    assert_eq!(popped, vec![1, 2, 5, 6, 7]);
}

#[test]
fn test_st() {
    let st = SparseTable::new(&[1, 0, 3, 0, 5, 0]);
    assert_eq!(st.query(0, 6), 0);
    assert_eq!(st.query(0, 1), 1);
    assert_eq!(st.query(2, 4), 0);
    assert_eq!(st.query(5, 6), 0);
}

#[test]
fn test_dsu() {
    let mut d = data_structure::dsu::DSU::new(8);
    assert_eq!(d.component_num(), 8);
    assert!(d.unite(0, 1));
    assert!(d.unite(2, 3));
    assert!(!d.unite(1, 0));
    assert!(d.is_connected(0, 1));
    assert!(!d.is_connected(1, 2));
    assert!(d.unite(1, 3));
    assert!(d.is_connected(0, 2));
    assert_eq!(d.component_num(), 5);
    assert_eq!(d.find(3), d.find(0));
}
