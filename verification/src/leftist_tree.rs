use vstd::multiset::Multiset;
use vstd::prelude::*;

verus! {

broadcast use vstd::multiset::group_multiset_axioms;

/// An ephemeral leftist mergeable min-heap over `i32` values.
///
/// The view is the multiset of stored values.  The leftist shape
/// discipline (the rank of the left child is at least the rank of the
/// right child) and the heap order (a node's value is at most both
/// children's values) are kept as the type invariant.
pub struct LeftistTree {
    root: Link,
    size: usize,
}

struct Node {
    elem: i32,
    left: Link,
    right: Link,
    dist: usize,
}

type Link = Option<Box<Node>>;

/// The multiset of values stored in a subtree.
spec fn heap_ms(l: Link) -> Multiset<int>
    decreases l,
{
    match l {
        None => Multiset::empty(),
        Some(n) => heap_ms(n.left).add(heap_ms(n.right)).insert(n.elem as int),
    }
}

/// The rank: the length of the rightmost path down to an empty child.
spec fn rnk(l: Link) -> nat
    decreases l,
{
    match l {
        None => 0,
        Some(n) => rnk(n.right) + 1,
    }
}

/// Leftist shape plus min-heap order, with each node's stored distance
/// equal to the rank of its right child.
spec fn heap_wf(l: Link) -> bool
    decreases l,
{
    match l {
        None => true,
        Some(n) => {
            &&& heap_wf(n.left)
            &&& heap_wf(n.right)
            &&& rnk(n.left) >= rnk(n.right)
            &&& n.dist == rnk(n.right)
            &&& (n.left matches Some(c) ==> n.elem <= c.elem)
            &&& (n.right matches Some(c) ==> n.elem <= c.elem)
        },
    }
}

/// In a well-formed heap the root value is a lower bound of the whole
/// multiset.
proof fn lemma_root_min(l: Link)
    requires
        heap_wf(l),
    ensures
        forall|x: int|
            heap_ms(l).contains(x) ==> (l matches Some(n) && n.elem as int <= x),
    decreases l,
{
    match l {
        None => {
            assert(heap_ms(l) == Multiset::<int>::empty());
            assert(forall|x: int| Multiset::<int>::empty().count(x) == 0);
        },
        Some(n) => {
            lemma_root_min(n.left);
            lemma_root_min(n.right);
            assert forall|x: int| heap_ms(l).contains(x) implies n.elem as int <= x by {
                if heap_ms(n.left).contains(x) {
                    assert(n.left matches Some(c) && c.elem as int <= x);
                } else if heap_ms(n.right).contains(x) {
                    assert(n.right matches Some(c) && c.elem as int <= x);
                } else {
                    assert(x == n.elem as int);
                }
            }
        },
    }
}

/// The rank never exceeds the number of stored values.
proof fn lemma_rnk_le_len(l: Link)
    requires
        heap_wf(l),
    ensures
        rnk(l) <= heap_ms(l).len(),
    decreases l,
{
    match l {
        None => {},
        Some(n) => {
            lemma_rnk_le_len(n.right);
        },
    }
}

impl LeftistTree {
    #[verifier::type_invariant]
    spec fn wf(self) -> bool {
        &&& heap_wf(self.root)
        &&& self.size == heap_ms(self.root).len()
    }

    pub closed spec fn view(self) -> Multiset<int> {
        heap_ms(self.root)
    }

    pub fn new() -> (s: Self)
        ensures
            s@ == Multiset::<int>::empty(),
    {
        LeftistTree { root: None, size: 0 }
    }

    pub fn len(&self) -> (r: usize)
        ensures
            r == self@.len(),
    {
        proof {
            use_type_invariant(&*self);
        }
        self.size
    }

    /// A reference to the smallest stored value, or `None` on an empty
    /// heap.
    pub fn peek(&self) -> (r: Option<&i32>)
        ensures
            match r {
                None => self@.len() == 0,
                Some(v) => self@.contains(*v as int) && forall|x: int|
                    self@.contains(x) ==> *v as int <= x,
            },
    {
        proof {
            use_type_invariant(&*self);
            lemma_root_min(self.root);
        }
        match &self.root {
            None => None,
            Some(n) => {
                proof {
                    assert(self@.contains(n.elem as int));
                }
                Some(&n.elem)
            },
        }
    }

    /// The rank of a subtree, read off the stored distance.
    fn get_node_dist(node: &Link) -> (r: usize)
        requires
            heap_wf(*node),
            heap_ms(*node).len() <= usize::MAX,
        ensures
            r == rnk(*node),
    {
        proof {
            lemma_rnk_le_len(*node);
        }
        match node {
            None => 0,
            Some(n) => n.dist + 1,
        }
    }

    fn merge_node(a: Link, b: Link) -> (r: Link)
        requires
            heap_wf(a),
            heap_wf(b),
            heap_ms(a).len() + heap_ms(b).len() <= usize::MAX,
        ensures
            heap_wf(r),
            heap_ms(r) == heap_ms(a).add(heap_ms(b)),
            r is Some <==> (a is Some || b is Some),
            (r matches Some(n) ==> ((a matches Some(x) ==> n.elem <= x.elem) && (
            b matches Some(y) ==> n.elem <= y.elem))),
        decreases heap_ms(a).len() + heap_ms(b).len(),
    {
        proof {
            lemma_rnk_le_len(a);
            lemma_rnk_le_len(b);
        }
        if a.is_none() || b.is_none() {
            proof {
                assert(heap_ms(a).add(heap_ms(b)) =~= if a is Some {
                    heap_ms(a)
                } else {
                    heap_ms(b)
                });
            }
            if a.is_some() {
                a
            } else {
                b
            }
        } else {
            let mut x = a.unwrap();
            let mut y = b.unwrap();
            if y.elem < x.elem {
                core::mem::swap(&mut x, &mut y);
            }
            let ghost gx = x;
            let ghost gy = y;
            proof {
                assert(gx.elem <= gy.elem);
                assert(heap_wf(Some(gx)) && heap_wf(Some(gy)));
                lemma_root_min(Some(gy));
                lemma_root_min(gx.left);
                lemma_root_min(gx.right);
                assert(heap_ms(a).add(heap_ms(b)) =~= heap_ms(gx.left).add(
                    heap_ms(gx.right).add(heap_ms(Some(gy))),
                ).insert(gx.elem as int));
            }
            // x.elem <= y.elem: x becomes the root, y melds into its right
            let xr = x.right.take();
            let merged = Self::merge_node(xr, Some(y));
            proof {
                // the new root value is a lower bound of the melded side
                assert(heap_ms(merged) == heap_ms(gx.right).add(heap_ms(Some(gy))));
                assert forall|e: int| heap_ms(merged).contains(e) implies gx.elem as int
                    <= e by {
                    assert(heap_ms(gx.right).contains(e) || heap_ms(Some(gy)).contains(e));
                    if heap_ms(gx.right).contains(e) {
                        assert(gx.right matches Some(n) && n.elem as int <= e);
                        assert(gx.right matches Some(n) ==> gx.elem <= n.elem);
                    } else {
                        assert(gy.elem as int <= e);
                    }
                }
                assert(merged matches Some(m) ==> heap_ms(merged).contains(m.elem as int));
            }
            let ld = Self::get_node_dist(&x.left);
            let rd = Self::get_node_dist(&merged);
            let (nl, nr, nd) = if rd > ld {
                let xl = x.left.take();
                (merged, xl, ld)
            } else {
                let xl = x.left.take();
                (xl, merged, rd)
            };
            x.left = nl;
            x.right = nr;
            x.dist = nd;
            proof {
                assert(heap_wf(Some(x)));
                assert(heap_ms(Some(x)) =~= heap_ms(a).add(heap_ms(b)));
            }
            Some(x)
        }
    }

    /// Adds one value to the heap.
    pub fn push(&mut self, val: i32)
        requires
            old(self)@.len() < usize::MAX,
        ensures
            final(self)@ == old(self)@.insert(val as int),
    {
        proof {
            use_type_invariant(&*self);
        }
        let mut tmp = LeftistTree { root: None, size: 0 };
        core::mem::swap(self, &mut tmp);
        let LeftistTree { root, size } = tmp;
        let node = Box::new(Node { elem: val, left: None, right: None, dist: 0 });
        proof {
            assert(heap_ms(Some(node)) =~= Multiset::empty().insert(val as int));
        }
        let merged = Self::merge_node(root, Some(node));
        proof {
            assert(heap_ms(merged) =~= heap_ms(root).insert(val as int));
        }
        *self = LeftistTree { root: merged, size: size + 1 };
    }

    /// Removes and returns the smallest value; `None` on an empty heap.
    pub fn pop(&mut self) -> (r: Option<i32>)
        ensures
            match r {
                None => old(self)@.len() == 0 && final(self)@ == old(self)@,
                Some(m) => {
                    &&& old(self)@.contains(m as int)
                    &&& final(self)@ == old(self)@.remove(m as int)
                    &&& forall|x: int| old(self)@.contains(x) ==> m as int <= x
                },
            },
    {
        proof {
            use_type_invariant(&*self);
            lemma_root_min(self.root);
        }
        let mut tmp = LeftistTree { root: None, size: 0 };
        core::mem::swap(self, &mut tmp);
        let LeftistTree { root, size } = tmp;
        match root {
            None => None,
            Some(n) => {
                let Node { elem, left, right, dist } = *n;
                let merged = Self::merge_node(left, right);
                proof {
                    assert(heap_ms(Some(n)).remove(elem as int) =~= heap_ms(merged));
                }
                *self = LeftistTree { root: merged, size: size - 1 };
                Some(elem)
            },
        }
    }

    /// Melds another heap into this one, consuming it.
    pub fn merge(&mut self, other: Self)
        requires
            old(self)@.len() + other@.len() <= usize::MAX,
        ensures
            final(self)@ == old(self)@.add(other@),
    {
        proof {
            use_type_invariant(&*self);
            use_type_invariant(&other);
        }
        let mut tmp = LeftistTree { root: None, size: 0 };
        core::mem::swap(self, &mut tmp);
        let LeftistTree { root, size } = tmp;
        let LeftistTree { root: oroot, size: osize } = other;
        let merged = Self::merge_node(root, oroot);
        *self = LeftistTree { root: merged, size: size + osize };
    }
}

/// A persistent leftist min-heap: every push or pop publishes a new
/// version, and all earlier versions stay readable.  Published nodes are
/// immutable and shared among versions through reference counting.
///
/// The view is the sequence of versions, each a multiset of values.
pub struct PstLeftistTree {
    roots: Vec<PstLink>,
}

struct PstNode {
    elem: i32,
    left: PstLink,
    right: PstLink,
    dist: usize,
}

type PstLink = Option<std::rc::Rc<PstNode>>;

spec fn pst_ms(l: PstLink) -> Multiset<int>
    decreases l,
{
    match l {
        None => Multiset::empty(),
        Some(n) => pst_ms(n.left).add(pst_ms(n.right)).insert(n.elem as int),
    }
}

spec fn pst_rnk(l: PstLink) -> nat
    decreases l,
{
    match l {
        None => 0,
        Some(n) => pst_rnk(n.right) + 1,
    }
}

spec fn pst_wf(l: PstLink) -> bool
    decreases l,
{
    match l {
        None => true,
        Some(n) => {
            &&& pst_wf(n.left)
            &&& pst_wf(n.right)
            &&& pst_rnk(n.left) >= pst_rnk(n.right)
            &&& n.dist == pst_rnk(n.right)
            &&& (n.left matches Some(c) ==> n.elem <= c.elem)
            &&& (n.right matches Some(c) ==> n.elem <= c.elem)
        },
    }
}

proof fn pst_lemma_root_min(l: &PstLink)
    requires
        pst_wf(*l),
    ensures
        forall|x: int|
            pst_ms(*l).contains(x) ==> (*l matches Some(n) && n.elem as int <= x),
    decreases *l,
{
    match l {
        None => {
            assert(pst_ms(*l) == Multiset::<int>::empty());
            assert(forall|x: int| Multiset::<int>::empty().count(x) == 0);
        },
        Some(n) => {
            pst_lemma_root_min(&n.left);
            pst_lemma_root_min(&n.right);
            assert forall|x: int| pst_ms(*l).contains(x) implies n.elem as int <= x by {
                if pst_ms(n.left).contains(x) {
                    assert(n.left matches Some(c) && c.elem as int <= x);
                } else if pst_ms(n.right).contains(x) {
                    assert(n.right matches Some(c) && c.elem as int <= x);
                } else {
                    assert(x == n.elem as int);
                }
            }
        },
    }
}

proof fn pst_lemma_rnk_le_len(l: &PstLink)
    requires
        pst_wf(*l),
    ensures
        pst_rnk(*l) <= pst_ms(*l).len(),
    decreases *l,
{
    match l {
        None => {},
        Some(n) => {
            pst_lemma_rnk_le_len(&n.right);
        },
    }
}

fn clone_link(l: &PstLink) -> (r: PstLink)
    ensures
        r == *l,
{
    match l {
        None => None,
        Some(rc) => Some(crate::shared::rc_clone(rc)),
    }
}

impl PstLeftistTree {
    #[verifier::type_invariant]
    spec fn wf(self) -> bool {
        forall|i: int|
            0 <= i < self.roots@.len() ==> pst_wf(#[trigger] self.roots@[i]) && pst_ms(
                self.roots@[i],
            ).len() <= i + 1
    }

    pub closed spec fn view(self) -> Seq<Multiset<int>> {
        self.roots@.map_values(|l: PstLink| pst_ms(l))
    }

    pub fn new() -> (s: Self)
        ensures
            s@ == Seq::<Multiset<int>>::empty(),
    {
        let s = PstLeftistTree { roots: Vec::new() };
        proof {
            assert(s@ =~= Seq::<Multiset<int>>::empty());
        }
        s
    }

    /// The number of published versions.
    pub fn versions(&self) -> (r: usize)
        ensures
            r == self@.len(),
    {
        self.roots.len()
    }

    fn pst_dist(node: &PstLink) -> (r: usize)
        requires
            pst_wf(*node),
            pst_ms(*node).len() <= usize::MAX,
        ensures
            r == pst_rnk(*node),
    {
        proof {
            pst_lemma_rnk_le_len(node);
        }
        match node {
            None => 0,
            Some(n) => n.dist + 1,
        }
    }

    fn merge_node(a: PstLink, b: PstLink) -> (r: PstLink)
        requires
            pst_wf(a),
            pst_wf(b),
            pst_ms(a).len() + pst_ms(b).len() <= usize::MAX,
        ensures
            pst_wf(r),
            pst_ms(r) == pst_ms(a).add(pst_ms(b)),
            r is Some <==> (a is Some || b is Some),
        decreases pst_ms(a).len() + pst_ms(b).len(),
    {
        if a.is_none() || b.is_none() {
            proof {
                assert(pst_ms(a).add(pst_ms(b)) =~= if a is Some {
                    pst_ms(a)
                } else {
                    pst_ms(b)
                });
            }
            if a.is_some() {
                a
            } else {
                b
            }
        } else {
            let x = a.unwrap();
            let y = b.unwrap();
            let (top, other) = if y.elem < x.elem {
                (y, x)
            } else {
                (x, y)
            };
            let ghost gt = top;
            let ghost go = other;
            proof {
                assert(gt.elem <= go.elem);
                pst_lemma_root_min(&Some(go));
                pst_lemma_root_min(&gt.left);
                pst_lemma_root_min(&gt.right);
                assert(pst_ms(a).add(pst_ms(b)) =~= pst_ms(gt.left).add(
                    pst_ms(gt.right).add(pst_ms(Some(go))),
                ).insert(gt.elem as int));
            }
            // path copying: the descended node is rebuilt, the untouched
            // left subtree is shared by reference
            let tr = clone_link(&top.right);
            let merged = Self::merge_node(tr, Some(other));
            proof {
                assert(pst_ms(merged) == pst_ms(gt.right).add(pst_ms(Some(go))));
                assert forall|e: int| pst_ms(merged).contains(e) implies gt.elem as int
                    <= e by {
                    assert(pst_ms(gt.right).contains(e) || pst_ms(Some(go)).contains(e));
                    if pst_ms(gt.right).contains(e) {
                        assert(gt.right matches Some(n) && n.elem as int <= e);
                        assert(gt.right matches Some(n) ==> gt.elem <= n.elem);
                    } else {
                        assert(go.elem as int <= e);
                    }
                }
                assert(merged matches Some(m) ==> pst_ms(merged).contains(m.elem as int));
            }
            let tl = clone_link(&top.left);
            let ld = Self::pst_dist(&tl);
            let rd = Self::pst_dist(&merged);
            let (nl, nr, nd) = if rd > ld {
                (merged, tl, ld)
            } else {
                (tl, merged, rd)
            };
            let node = PstNode { elem: top.elem, left: nl, right: nr, dist: nd };
            proof {
                assert(pst_wf(Some(std::rc::Rc::new(node))) ==> true);
            }
            let r = Some(std::rc::Rc::new(node));
            proof {
                assert(pst_ms(r) =~= pst_ms(a).add(pst_ms(b)));
            }
            r
        }
    }

    /// Publishes a new version holding the previous version's values plus
    /// `val`.  Earlier versions are untouched.
    pub fn push(&mut self, val: i32)
        requires
            old(self)@.len() < usize::MAX,
        ensures
            final(self)@ == old(self)@.push(
                (if old(self)@.len() == 0 {
                    Multiset::<int>::empty()
                } else {
                    old(self)@.last()
                }).insert(val as int),
            ),
    {
        proof {
            use_type_invariant(&*self);
        }
        let mut tmp = PstLeftistTree { roots: Vec::new() };
        core::mem::swap(self, &mut tmp);
        let PstLeftistTree { mut roots } = tmp;
        let pre: PstLink = if roots.len() > 0 {
            clone_link(&roots[roots.len() - 1])
        } else {
            None
        };
        let node = std::rc::Rc::new(PstNode { elem: val, left: None, right: None, dist: 0 });
        proof {
            assert(node.elem == val && node.left is None && node.right is None);
            assert(pst_ms(None) =~= Multiset::<int>::empty());
            assert(pst_ms(Some(node)) == pst_ms(node.left).add(pst_ms(node.right)).insert(
                node.elem as int,
            ));
            assert(pst_ms(Some(node)) =~= Multiset::empty().insert(val as int));
            assert(pst_wf(node.left) && pst_wf(node.right));
            assert(pst_wf(Some(node)));
        }
        let merged = Self::merge_node(pre, Some(node));
        proof {
            assert(pst_ms(merged) =~= pst_ms(pre).insert(val as int));
        }
        roots.push(merged);
        *self = PstLeftistTree { roots };
        proof {
            assert(final(self)@ =~= old(self)@.push(pst_ms(merged)));
        }
    }

    /// Pops the smallest value of the latest version, publishing the
    /// shrunken heap as a new version.  Returns `None`, publishing
    /// nothing, when there is no version or the latest one is empty.
    pub fn pop(&mut self) -> (r: Option<i32>)
        ensures
            match r {
                None => (old(self)@.len() == 0 || old(self)@.last().len() == 0)
                    && final(self)@ == old(self)@,
                Some(m) => {
                    &&& old(self)@.len() > 0
                    &&& old(self)@.last().contains(m as int)
                    &&& final(self)@ == old(self)@.push(old(self)@.last().remove(m as int))
                    &&& forall|x: int| old(self)@.last().contains(x) ==> m as int <= x
                },
            },
    {
        proof {
            use_type_invariant(&*self);
        }
        let mut tmp = PstLeftistTree { roots: Vec::new() };
        core::mem::swap(self, &mut tmp);
        let PstLeftistTree { mut roots } = tmp;
        if roots.len() == 0 {
            *self = PstLeftistTree { roots };
            return None;
        }
        let n = roots.len();
        let lastref = &roots[n - 1];
        proof {
            pst_lemma_root_min(lastref);
        }
        match lastref {
            None => {
                *self = PstLeftistTree { roots };
                proof {
                    assert(old(self)@.last().len() == 0);
                }
                None
            },
            Some(rc) => {
                let m = rc.elem;
                let l = clone_link(&rc.left);
                let rgt = clone_link(&rc.right);
                let merged = Self::merge_node(l, rgt);
                proof {
                    assert(pst_ms(roots@[n as int - 1]).remove(m as int) =~= pst_ms(
                        merged,
                    ));
                }
                roots.push(merged);
                *self = PstLeftistTree { roots };
                proof {
                    assert(final(self)@ =~= old(self)@.push(old(self)@.last().remove(m as int)));
                }
                Some(m)
            },
        }
    }

    /// Reads the smallest value of version `idx` without changing
    /// anything; `None` when the version does not exist or is empty.
    pub fn peek_version(&self, idx: usize) -> (r: Option<i32>)
        ensures
            match r {
                None => idx >= self@.len() || self@[idx as int].len() == 0,
                Some(m) => {
                    &&& idx < self@.len()
                    &&& self@[idx as int].contains(m as int)
                    &&& forall|x: int| self@[idx as int].contains(x) ==> m as int <= x
                },
            },
    {
        proof {
            use_type_invariant(&*self);
        }
        if idx >= self.roots.len() {
            return None;
        }
        proof {
            pst_lemma_root_min(&self.roots@[idx as int]);
        }
        match &self.roots[idx] {
            None => None,
            Some(rc) => {
                proof {
                    assert(self@[idx as int].contains(rc.elem as int));
                }
                Some(rc.elem)
            },
        }
    }
}

} // verus!
