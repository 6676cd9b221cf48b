use vstd::prelude::*;

verus! {

broadcast use vstd::map::group_map_axioms, vstd::map_lib::group_map_union, vstd::set_lib::group_set_lib_default;

/// A self-adjusting binary search tree map from `i32` keys to values.
///
/// There is no balance invariant: every access rotates the touched key
/// to the root, which gives amortized efficiency.  The view is the map
/// of stored pairs; each node's `size` caches its subtree's pair count.
pub struct SplayTreeMap<V> {
    root: Link<V>,
}

struct Node<V> {
    key: i32,
    val: V,
    left: Link<V>,
    right: Link<V>,
    size: usize,
}

type Link<V> = Option<Box<Node<V>>>;

spec fn sub_map<V>(l: Link<V>) -> Map<int, V>
    decreases l,
{
    match l {
        None => Map::empty(),
        Some(n) => sub_map(n.left).union_prefer_right(sub_map(n.right)).insert(
            n.key as int,
            n.val,
        ),
    }
}

spec fn sub_cnt<V>(l: Link<V>) -> nat
    decreases l,
{
    match l {
        None => 0,
        Some(n) => 1 + sub_cnt(n.left) + sub_cnt(n.right),
    }
}

/// Key ordering plus correct cached sizes.
spec fn sub_wf<V>(l: Link<V>) -> bool
    decreases l,
{
    match l {
        None => true,
        Some(n) => {
            &&& sub_wf(n.left)
            &&& sub_wf(n.right)
            &&& forall|k: int| sub_map(n.left).dom().contains(k) ==> k < n.key as int
            &&& forall|k: int| sub_map(n.right).dom().contains(k) ==> k > n.key as int
            &&& n.size == sub_cnt(l)
        },
    }
}

/// A well-formed subtree's map is finite and as large as the node count.
proof fn lemma_cnt<V>(l: Link<V>)
    requires
        sub_wf(l),
    ensures
        sub_map(l).dom().finite(),
        sub_map(l).dom().len() == sub_cnt(l),
    decreases l,
{
    match l {
        None => {
            assert(sub_map(l) =~= Map::<int, V>::empty());
        },
        Some(n) => {
            lemma_cnt(n.left);
            lemma_cnt(n.right);
            let lm = sub_map(n.left);
            let rm = sub_map(n.right);
            assert(lm.dom().disjoint(rm.dom()));
            vstd::map_lib::lemma_disjoint_union_size(lm, rm);
            assert(!lm.union_prefer_right(rm).dom().contains(n.key as int));
            assert(sub_map(l).dom() =~= lm.union_prefer_right(rm).dom().insert(n.key as int));
        },
    }
}

impl<V> SplayTreeMap<V> {
    #[verifier::type_invariant]
    spec fn wf(self) -> bool {
        sub_wf(self.root)
    }

    pub closed spec fn view(self) -> Map<int, V> {
        sub_map(self.root)
    }

    pub fn new() -> (s: Self)
        ensures
            s@ == Map::<int, V>::empty(),
    {
        SplayTreeMap { root: None }
    }

    pub fn len(&self) -> (r: usize)
        ensures
            r == self@.len(),
    {
        proof {
            use_type_invariant(&*self);
            lemma_cnt(self.root);
        }
        match &self.root {
            None => 0,
            Some(n) => n.size,
        }
    }

    fn link_size(l: &Link<V>) -> (r: usize)
        requires
            sub_wf(*l),
        ensures
            r == sub_cnt(*l),
    {
        match l {
            None => 0,
            Some(n) => n.size,
        }
    }

    /// Rotation that moves the left child up; the map is unchanged.
    fn rotate_right(n: Box<Node<V>>) -> (r: Box<Node<V>>)
        requires
            sub_wf(Some(n)),
            n.left is Some,
        ensures
            sub_wf(Some(r)),
            sub_map(Some(r)) == sub_map(Some(n)),
            sub_cnt(Some(r)) == sub_cnt(Some(n)),
            r.key == n.left.unwrap().key,
        decreases n,
    {
        let ghost gn = n;
        let ghost gl = n.left.unwrap();
        proof {
            assert(sub_wf(gn.left) && sub_wf(gn.right));
            assert(sub_wf(gl.left) && sub_wf(gl.right));
            assert(gn.size == sub_cnt(Some(gn)));
            assert(sub_cnt(Some(gn)) == 1 + sub_cnt(gn.left) + sub_cnt(gn.right));
            assert(sub_cnt(gn.left) == 1 + sub_cnt(gl.left) + sub_cnt(gl.right));
            assert(sub_map(gn.left).dom().contains(gl.key as int));
        }
        let mut n = n;
        let mut l = n.left.take().unwrap();
        n.left = l.right.take();
        let ls = Self::link_size(&n.left);
        let rs = Self::link_size(&n.right);
        n.size = 1 + ls + rs;
        let mid_size = n.size;
        let ghost gmid = n;
        proof {
            assert(sub_map(Some(gmid)) =~= sub_map(gl.right).union_prefer_right(
                sub_map(gn.right),
            ).insert(gn.key as int, gn.val));
            assert forall|k: int| sub_map(gl.right).dom().contains(k) implies k
                < gn.key as int by {
                assert(sub_map(gn.left).dom().contains(k));
            }
            assert forall|k: int| sub_map(Some(gmid)).dom().contains(k) implies k
                > gl.key as int by {
                if sub_map(gl.right).dom().contains(k) {
                } else if sub_map(gn.right).dom().contains(k) {
                    assert(k > gn.key as int);
                } else {
                    assert(k == gn.key as int);
                }
            }
            assert(sub_wf(Some(gmid)));
        }
        let ls2 = Self::link_size(&l.left);
        l.right = Some(n);
        l.size = 1 + ls2 + mid_size;
        proof {
            assert(sub_wf(Some(l)));
            assert(sub_map(Some(l)) =~= sub_map(Some(gn)));
        }
        l
    }

    /// Rotation that moves the right child up; the map is unchanged.
    fn rotate_left(n: Box<Node<V>>) -> (r: Box<Node<V>>)
        requires
            sub_wf(Some(n)),
            n.right is Some,
        ensures
            sub_wf(Some(r)),
            sub_map(Some(r)) == sub_map(Some(n)),
            sub_cnt(Some(r)) == sub_cnt(Some(n)),
            r.key == n.right.unwrap().key,
            sub_cnt(r.right) < sub_cnt(n.right),
        decreases n,
    {
        let ghost gn = n;
        let ghost gr = n.right.unwrap();
        proof {
            assert(sub_wf(gn.left) && sub_wf(gn.right));
            assert(sub_wf(gr.left) && sub_wf(gr.right));
            assert(gn.size == sub_cnt(Some(gn)));
            assert(sub_cnt(Some(gn)) == 1 + sub_cnt(gn.left) + sub_cnt(gn.right));
            assert(sub_cnt(gn.right) == 1 + sub_cnt(gr.left) + sub_cnt(gr.right));
            assert(sub_map(gn.right).dom().contains(gr.key as int));
        }
        let mut n = n;
        let mut r = n.right.take().unwrap();
        n.right = r.left.take();
        let ls = Self::link_size(&n.left);
        let rs = Self::link_size(&n.right);
        n.size = 1 + ls + rs;
        let mid_size = n.size;
        let ghost gmid = n;
        proof {
            assert(sub_map(Some(gmid)) =~= sub_map(gn.left).union_prefer_right(
                sub_map(gr.left),
            ).insert(gn.key as int, gn.val));
            assert forall|k: int| sub_map(gr.left).dom().contains(k) implies k
                > gn.key as int by {
                assert(sub_map(gn.right).dom().contains(k));
            }
            assert forall|k: int| sub_map(Some(gmid)).dom().contains(k) implies k
                < gr.key as int by {
                if sub_map(gn.left).dom().contains(k) {
                    assert(k < gn.key as int);
                } else if sub_map(gr.left).dom().contains(k) {
                } else {
                    assert(k == gn.key as int);
                }
            }
            assert(sub_wf(Some(gmid)));
        }
        let rs2 = Self::link_size(&r.right);
        r.left = Some(n);
        r.size = 1 + mid_size + rs2;
        proof {
            assert(sub_wf(Some(r)));
            assert(!sub_map(gr.right).dom().contains(gn.key as int));
            assert(!sub_map(gr.right).dom().contains(gr.key as int));
            assert(!sub_map(gn.left).dom().contains(gr.key as int));
            assert(!sub_map(gr.left).dom().contains(gr.key as int));
            assert(sub_map(Some(r)) =~= sub_map(Some(gn)));
        }
        r
    }

    /// Recursive insert that splays the written key to the subtree root.
    fn insert_node(node: Link<V>, key: i32, val: V) -> (r: Link<V>)
        requires
            sub_wf(node),
            sub_cnt(node) < usize::MAX,
        ensures
            sub_wf(r),
            sub_map(r) == sub_map(node).insert(key as int, val),
            sub_cnt(node) <= sub_cnt(r) <= sub_cnt(node) + 1,
            r matches Some(n) && n.key == key,
        decreases node,
    {
        match node {
            None => {
                let n = Box::new(Node { key, val, left: None, right: None, size: 1 });
                proof {
                    assert(sub_map(n.left) =~= Map::<int, V>::empty());
                    assert(sub_map(Some(n)) =~= Map::<int, V>::empty().insert(key as int, val));
                }
                Some(n)
            },
            Some(mut n) => {
                let ghost gn = n;
                if key == n.key {
                    n.val = val;
                    proof {
                        assert(!sub_map(gn.left).dom().contains(key as int));
                        assert(!sub_map(gn.right).dom().contains(key as int));
                        assert(sub_map(Some(n)) =~= sub_map(Some(gn)).insert(key as int, val));
                    }
                    Some(n)
                } else if key < n.key {
                    let sub = Self::insert_node(n.left.take(), key, val);
                    n.left = sub;
                    let ls = Self::link_size(&n.left);
                    let rs = Self::link_size(&n.right);
                    n.size = 1 + ls + rs;
                    proof {
                        assert(!sub_map(gn.right).dom().contains(key as int));
                        assert(sub_map(Some(n)) =~= sub_map(Some(gn)).insert(key as int, val));
                        assert(sub_wf(Some(n)));
                    }
                    Some(Self::rotate_right(n))
                } else {
                    let sub = Self::insert_node(n.right.take(), key, val);
                    n.right = sub;
                    let ls = Self::link_size(&n.left);
                    let rs = Self::link_size(&n.right);
                    n.size = 1 + ls + rs;
                    proof {
                        assert(!sub_map(gn.left).dom().contains(key as int));
                        assert(sub_map(Some(n)) =~= sub_map(Some(gn)).insert(key as int, val));
                        assert(sub_wf(Some(n)));
                    }
                    Some(Self::rotate_left(n))
                }
            },
        }
    }

    /// Writes `key -> val`, overwriting an existing value for the key.
    pub fn insert(&mut self, key: i32, val: V)
        requires
            old(self)@.len() < usize::MAX,
        ensures
            final(self)@ == old(self)@.insert(key as int, val),
    {
        proof {
            use_type_invariant(&*self);
            lemma_cnt(self.root);
        }
        let mut root = None;
        core::mem::swap(&mut root, &mut self.root);
        self.root = Self::insert_node(root, key, val);
    }

    /// Rotates `key` (or the last key compared with it) to the root; the
    /// map itself is unchanged.
    fn splay(node: Link<V>, key: i32) -> (r: Link<V>)
        requires
            sub_wf(node),
        ensures
            sub_wf(r),
            sub_map(r) == sub_map(node),
            sub_cnt(r) == sub_cnt(node),
            r is Some <==> node is Some,
            sub_map(node).dom().contains(key as int) ==> (r matches Some(n) && n.key == key),
        decreases node,
    {
        match node {
            None => None,
            Some(mut n) => {
                let ghost gn = n;
                if key == n.key {
                    Some(n)
                } else if key < n.key {
                    proof {
                        assert(!sub_map(gn.right).dom().contains(key as int));
                    }
                    let sub = Self::splay(n.left.take(), key);
                    let has = sub.is_some();
                    n.left = sub;
                    proof {
                        assert(sub_map(Some(n)) =~= sub_map(Some(gn)));
                        assert(sub_wf(Some(n)));
                    }
                    if has {
                        Some(Self::rotate_right(n))
                    } else {
                        Some(n)
                    }
                } else {
                    proof {
                        assert(!sub_map(gn.left).dom().contains(key as int));
                    }
                    let sub = Self::splay(n.right.take(), key);
                    let has = sub.is_some();
                    n.right = sub;
                    proof {
                        assert(sub_map(Some(n)) =~= sub_map(Some(gn)));
                        assert(sub_wf(Some(n)));
                    }
                    if has {
                        Some(Self::rotate_left(n))
                    } else {
                        Some(n)
                    }
                }
            },
        }
    }

    /// Looks the key up, splaying it to the root when present.
    pub fn get(&mut self, key: &i32) -> (r: Option<&V>)
        ensures
            final(self)@ == old(self)@,
            match r {
                None => !old(self)@.dom().contains(*key as int),
                Some(v) => old(self)@.dom().contains(*key as int) && *v == old(self)@[*key as int],
            },
    {
        proof {
            use_type_invariant(&*self);
        }
        let mut root = None;
        core::mem::swap(&mut root, &mut self.root);
        self.root = Self::splay(root, *key);
        match &self.root {
            Some(n) if n.key == *key => {
                proof {
                    assert(self@.dom().contains(n.key as int));
                    assert(!sub_map(n.left).dom().contains(n.key as int));
                    assert(!sub_map(n.right).dom().contains(n.key as int));
                }
                Some(&n.val)
            },
            _ => {
                proof {
                    if self@.dom().contains(*key as int) {
                        assert(self.root matches Some(n) && n.key == *key);
                    }
                }
                None
            },
        }
    }

    /// Removes the key if present; returns whether it was present.
    ///
    /// The removed root's subtrees are joined by rotating the largest
    /// key of the left subtree to its top and hanging the right subtree
    /// below it.
    pub fn remove(&mut self, key: &i32) -> (r: bool)
        ensures
            r == old(self)@.dom().contains(*key as int),
            final(self)@ == old(self)@.remove(*key as int),
    {
        proof {
            use_type_invariant(&*self);
        }
        let k = *key;
        let mut root = None;
        core::mem::swap(&mut root, &mut self.root);
        let ghost gmap = sub_map(root);
        let splayed = Self::splay(root, k);
        match splayed {
            None => {
                proof {
                    assert(gmap =~= gmap.remove(k as int));
                }
                false
            },
            Some(n) => {
                if n.key != k {
                    proof {
                        assert(!gmap.dom().contains(k as int));
                        assert(gmap =~= gmap.remove(k as int));
                    }
                    self.root = Some(n);
                    false
                } else {
                    let nb = *n;
                    let Node { key: _, val: _, left, right, size: _ } = nb;
                    proof {
                        assert(!sub_map(left).dom().contains(k as int));
                        assert(!sub_map(right).dom().contains(k as int));
                    }
                    match left {
                        None => {
                            proof {
                                assert(sub_map(right) =~= gmap.remove(k as int));
                            }
                            self.root = right;
                        },
                        Some(top) => {
                            let mut top = top;
                            // bring the largest key of the left subtree up
                            while top.right.is_some()
                                invariant
                                    sub_wf(Some(top)),
                                    sub_map(Some(top)) == sub_map(left),
                                    sub_cnt(Some(top)) == sub_cnt(left),
                                decreases sub_cnt(top.right),
                            {
                                top = Self::rotate_left(top);
                            }
                            let ghost gtop = top;
                            let rs = Self::link_size(&right);
                            let ls = Self::link_size(&top.left);
                            proof {
                                lemma_cnt(left);
                                lemma_cnt(right);
                                lemma_cnt(gtop.left);
                                assert(gmap.dom().contains(k as int));
                                vstd::map_lib::lemma_disjoint_union_size(
                                    sub_map(left),
                                    sub_map(right),
                                );
                                assert(gmap.dom() =~= sub_map(left).union_prefer_right(
                                    sub_map(right),
                                ).dom().insert(k as int));
                                assert(gmap.dom().len() <= usize::MAX);
                            }
                            let ghost gtop2 = gtop;
                            top.right = right;
                            top.size = 1 + ls + rs;
                            proof {
                                assert(sub_map(Some(gtop)) == sub_map(left));
                                assert(sub_map(Some(gtop)) == sub_map(gtop.left).union_prefer_right(
                                    sub_map(gtop.right),
                                ).insert(gtop.key as int, gtop.val));
                                assert(gtop.right is None);
                                assert(sub_map(gtop.right) =~= Map::<int, V>::empty());
                                assert forall|x: int|
                                    sub_map(gtop.left).dom().contains(x) implies x
                                    < gtop.key as int by {}
                                assert forall|x: int| sub_map(right).dom().contains(
                                    x,
                                ) implies x > gtop.key as int by {
                                    assert(sub_map(Some(gtop)).dom().contains(gtop.key as int));
                                    assert((gtop.key as int) < (k as int));
                                }
                                assert(sub_wf(Some(top)));
                                assert(sub_map(Some(top)) =~= gmap.remove(k as int));
                            }
                            self.root = Some(top);
                        },
                    }
                    true
                }
            },
        }
    }
}

} // verus!
