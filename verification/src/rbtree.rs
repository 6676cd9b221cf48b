use vstd::prelude::*;

verus! {

broadcast use vstd::map::group_map_axioms, vstd::map_lib::group_map_union, vstd::set_lib::group_set_lib_default;

/// A left-leaning red-black tree map from `i32` keys to values.
///
/// The view is the map of stored pairs.  Key ordering and cached sizes
/// are the type invariant; the red-black discipline (no red node with a
/// red child, equal black counts on every path, no right-leaning red
/// link) is stated by [`RBTreeMap::rb_invariant`], established by `new`
/// and preserved by `insert`.
pub struct RBTreeMap<V> {
    root: Link<V>,
}

#[derive(Clone, Copy, PartialEq, Eq, Structural)]
enum Color {
    Red,
    Black,
}

struct Node<V> {
    key: i32,
    val: V,
    left: Link<V>,
    right: Link<V>,
    color: Color,
    size: usize,
}

type Link<V> = Option<Box<Node<V>>>;

spec fn sub_map<V>(l: Link<V>) -> Map<int, V>
    decreases l,
{
    match l {
        None => Map::empty(),
        Some(n) => sub_map(n.left).union_prefer_right(sub_map(n.right)).insert(
            n.key as int,
            n.val,
        ),
    }
}

spec fn sub_cnt<V>(l: Link<V>) -> nat
    decreases l,
{
    match l {
        None => 0,
        Some(n) => 1 + sub_cnt(n.left) + sub_cnt(n.right),
    }
}

/// Key ordering plus correct cached sizes.
spec fn sub_wf<V>(l: Link<V>) -> bool
    decreases l,
{
    match l {
        None => true,
        Some(n) => {
            &&& sub_wf(n.left)
            &&& sub_wf(n.right)
            &&& forall|k: int| sub_map(n.left).dom().contains(k) ==> k < n.key as int
            &&& forall|k: int| sub_map(n.right).dom().contains(k) ==> k > n.key as int
            &&& n.size == sub_cnt(l)
        },
    }
}

spec fn red<V>(l: Link<V>) -> bool {
    l matches Some(n) && n.color == Color::Red
}

/// Black height: the number of black nodes on the leftmost path.
spec fn bh<V>(l: Link<V>) -> nat
    decreases l,
{
    match l {
        None => 0,
        Some(n) => bh(n.left) + if n.color == Color::Black {
            1nat
        } else {
            0nat
        },
    }
}

/// The left-leaning red-black shape: equal black heights, no red right
/// child, and a red node never has a red left child.
spec fn rb<V>(l: Link<V>) -> bool
    decreases l,
{
    match l {
        None => true,
        Some(n) => {
            &&& rb(n.left)
            &&& rb(n.right)
            &&& bh(n.left) == bh(n.right)
            &&& !red(n.right)
            &&& (n.color == Color::Red ==> !red(n.left))
        },
    }
}

/// A subtree that is red-black except for one red-red pair at its red
/// root and red left child.
spec fn almost<V>(l: Link<V>) -> bool {
    l matches Some(n) && {
        &&& n.color == Color::Red
        &&& red(n.left)
        &&& rb(n.left)
        &&& rb(n.right)
        &&& !red(n.right)
        &&& bh(n.left) == bh(n.right)
    }
}

/// The weaker property named by the red-black law: no red-red edge and
/// equal black counts, without the left-leaning constraint.
spec fn rb_shape<V>(l: Link<V>) -> bool
    decreases l,
{
    match l {
        None => true,
        Some(n) => {
            &&& rb_shape(n.left)
            &&& rb_shape(n.right)
            &&& bh(n.left) == bh(n.right)
            &&& (n.color == Color::Red ==> !red(n.left) && !red(n.right))
        },
    }
}

proof fn lemma_rb_implies_shape<V>(l: Link<V>)
    requires
        rb(l),
    ensures
        rb_shape(l),
    decreases l,
{
    match l {
        None => {},
        Some(n) => {
            lemma_rb_implies_shape(n.left);
            lemma_rb_implies_shape(n.right);
        },
    }
}

proof fn lemma_cnt<V>(l: Link<V>)
    requires
        sub_wf(l),
    ensures
        sub_map(l).dom().finite(),
        sub_map(l).dom().len() == sub_cnt(l),
    decreases l,
{
    match l {
        None => {
            assert(sub_map(l) =~= Map::<int, V>::empty());
        },
        Some(n) => {
            lemma_cnt(n.left);
            lemma_cnt(n.right);
            let lm = sub_map(n.left);
            let rm = sub_map(n.right);
            assert(lm.dom().disjoint(rm.dom()));
            vstd::map_lib::lemma_disjoint_union_size(lm, rm);
            assert(!lm.union_prefer_right(rm).dom().contains(n.key as int));
            assert(sub_map(l).dom() =~= lm.union_prefer_right(rm).dom().insert(n.key as int));
        },
    }
}

proof fn lemma_bh_le_cnt<V>(l: Link<V>)
    ensures
        bh(l) <= sub_cnt(l),
    decreases l,
{
    match l {
        None => {},
        Some(n) => {
            lemma_bh_le_cnt(n.left);
        },
    }
}


/// The pairs of a subtree in symmetric (ascending-key) order.
spec fn kv_seq<V>(l: Link<V>) -> Seq<(i32, V)>
    decreases l,
{
    match l {
        None => Seq::empty(),
        Some(n) => kv_seq(n.left) + seq![(n.key, n.val)] + kv_seq(n.right),
    }
}

/// The in-order pair sequence of a well-formed subtree lists exactly
/// the map's pairs, in strictly ascending key order.
proof fn lemma_kv<V>(l: Link<V>)
    requires
        sub_wf(l),
    ensures
        kv_seq(l).len() == sub_cnt(l),
        forall|i: int|
            0 <= i < kv_seq(l).len() ==> sub_map(l).dom().contains(
                (#[trigger] kv_seq(l)[i]).0 as int,
            ) && sub_map(l)[kv_seq(l)[i].0 as int] == kv_seq(l)[i].1,
        forall|i: int, j: int|
            0 <= i < j < kv_seq(l).len() ==> (#[trigger] kv_seq(l)[i]).0 < (#[trigger] kv_seq(
                l,
            )[j]).0,
        forall|q: int|
            sub_map(l).dom().contains(q) ==> exists|i: int|
                0 <= i < kv_seq(l).len() && (#[trigger] kv_seq(l)[i]).0 as int == q,
    decreases l,
{
    match l {
        None => {
            assert(sub_map(l) =~= Map::<int, V>::empty());
        },
        Some(n) => {
            lemma_kv(n.left);
            lemma_kv(n.right);
            let s = kv_seq(l);
            let a = kv_seq(n.left);
            let b = kv_seq(n.right);
            let ln = a.len() as int;
            assert(s == a + seq![(n.key, n.val)] + b);
            assert forall|i: int| 0 <= i < s.len() implies sub_map(l).dom().contains(
                (#[trigger] s[i]).0 as int,
            ) && sub_map(l)[s[i].0 as int] == s[i].1 by {
                if i < ln {
                    assert(s[i] == a[i]);
                    assert(sub_map(n.left).dom().contains(a[i].0 as int));
                    assert(!sub_map(n.right).dom().contains(a[i].0 as int));
                    assert(a[i].0 != n.key);
                } else if i == ln {
                    assert(s[i] == (n.key, n.val));
                } else {
                    assert(s[i] == b[i - ln - 1]);
                    assert(sub_map(n.right).dom().contains(b[i - ln - 1].0 as int));
                    assert(b[i - ln - 1].0 != n.key);
                }
            }
            assert forall|i: int, j: int| 0 <= i < j < s.len() implies (#[trigger] s[i]).0 < (
            #[trigger] s[j]).0 by {
                if j < ln {
                } else if i > ln {
                    assert(s[i] == b[i - ln - 1] && s[j] == b[j - ln - 1]);
                } else {
                    if i < ln {
                        assert(s[i] == a[i]);
                        assert(sub_map(n.left).dom().contains(a[i].0 as int));
                        assert(s[i].0 < n.key);
                    }
                    if j > ln {
                        assert(s[j] == b[j - ln - 1]);
                        assert(sub_map(n.right).dom().contains(b[j - ln - 1].0 as int));
                        assert(s[j].0 > n.key);
                    }
                }
            }
            assert forall|q: int| sub_map(l).dom().contains(q) implies exists|i: int|
                0 <= i < s.len() && (#[trigger] s[i]).0 as int == q by {
                if sub_map(n.left).dom().contains(q) {
                    let i = choose|i: int| 0 <= i < a.len() && (#[trigger] a[i]).0 as int == q;
                    assert(s[i] == a[i]);
                } else if sub_map(n.right).dom().contains(q) {
                    let i = choose|i: int| 0 <= i < b.len() && (#[trigger] b[i]).0 as int == q;
                    assert(s[i + ln + 1] == b[i]);
                } else {
                    assert(q == n.key as int);
                    assert(s[ln].0 as int == q);
                }
            }
        },
    }
}

/// The pending part of a traversal: each stack entry contributes its
/// own pair and then its right subtree, top entry first.
spec fn trav_rest<V>(s: Seq<Box<Node<V>>>) -> Seq<(i32, V)>
    decreases s.len(),
{
    if s.len() == 0 {
        Seq::empty()
    } else {
        seq![(s.last().key, s.last().val)] + kv_seq(s.last().right) + trav_rest(s.drop_last())
    }
}

spec fn trav_rest_ref<V>(s: Seq<&Box<Node<V>>>) -> Seq<(i32, V)>
    decreases s.len(),
{
    if s.len() == 0 {
        Seq::empty()
    } else {
        seq![(s.last().key, s.last().val)] + kv_seq(s.last().right) + trav_rest_ref(s.drop_last())
    }
}

/// Remaining work of a traversal, used as its termination measure.
spec fn pot_rest<V>(s: Seq<Box<Node<V>>>) -> nat
    decreases s.len(),
{
    if s.len() == 0 {
        0
    } else {
        1 + 2 * sub_cnt(s.last().right) + pot_rest(s.drop_last())
    }
}

spec fn pot_rest_ref<V>(s: Seq<&Box<Node<V>>>) -> nat
    decreases s.len(),
{
    if s.len() == 0 {
        0
    } else {
        1 + 2 * sub_cnt(s.last().right) + pot_rest_ref(s.drop_last())
    }
}

impl<V> RBTreeMap<V> {
    #[verifier::type_invariant]
    spec fn wf(self) -> bool {
        sub_wf(self.root)
    }

    pub closed spec fn view(self) -> Map<int, V> {
        sub_map(self.root)
    }

    /// The red-black discipline of the whole tree: a black root whose
    /// subtree has no red-red edge, no right-leaning red link, and equal
    /// black counts on all paths.
    pub closed spec fn rb_invariant(self) -> bool {
        rb(self.root) && !red(self.root)
    }

    pub fn new() -> (s: Self)
        ensures
            s@ == Map::<int, V>::empty(),
            s.rb_invariant(),
    {
        RBTreeMap { root: None }
    }

    pub fn len(&self) -> (r: usize)
        ensures
            r == self@.len(),
    {
        proof {
            use_type_invariant(&*self);
            lemma_cnt(self.root);
        }
        match &self.root {
            None => 0,
            Some(n) => n.size,
        }
    }

    fn link_size(l: &Link<V>) -> (r: usize)
        requires
            sub_wf(*l),
        ensures
            r == sub_cnt(*l),
    {
        match l {
            None => 0,
            Some(n) => n.size,
        }
    }

    fn is_red(l: &Link<V>) -> (r: bool)
        ensures
            r == red(*l),
    {
        match l {
            None => false,
            Some(n) => matches!(n.color, Color::Red),
        }
    }

    fn get_node<'a>(node: &'a Link<V>, key: i32) -> (r: Option<&'a V>)
        requires
            sub_wf(*node),
        ensures
            match r {
                None => !sub_map(*node).dom().contains(key as int),
                Some(v) => sub_map(*node).dom().contains(key as int) && *v == sub_map(*node)[key
                    as int],
            },
        decreases *node,
    {
        match node {
            None => None,
            Some(n) => {
                if key == n.key {
                    proof {
                        assert(!sub_map(n.left).dom().contains(key as int));
                        assert(!sub_map(n.right).dom().contains(key as int));
                    }
                    Some(&n.val)
                } else if key < n.key {
                    proof {
                        assert(!sub_map(n.right).dom().contains(key as int));
                    }
                    Self::get_node(&n.left, key)
                } else {
                    proof {
                        assert(!sub_map(n.left).dom().contains(key as int));
                    }
                    Self::get_node(&n.right, key)
                }
            },
        }
    }

    pub fn get(&self, key: &i32) -> (r: Option<&V>)
        ensures
            match r {
                None => !self@.dom().contains(*key as int),
                Some(v) => self@.dom().contains(*key as int) && *v == self@[*key as int],
            },
    {
        proof {
            use_type_invariant(&*self);
        }
        Self::get_node(&self.root, *key)
    }

    /// Rotation moving the right child up, exchanging the two colors.
    fn rotate_left(n: Box<Node<V>>) -> (r: Box<Node<V>>)
        requires
            sub_wf(Some(n)),
            n.right is Some,
        ensures
            sub_wf(Some(r)),
            sub_map(Some(r)) == sub_map(Some(n)),
            sub_cnt(Some(r)) == sub_cnt(Some(n)),
            r.key == n.right.unwrap().key,
            r.val == n.right.unwrap().val,
            r.color == n.color,
            r.right == n.right.unwrap().right,
            r.left matches Some(m) && m.key == n.key && m.val == n.val && m.color == n.right.unwrap().color
                && m.left == n.left && m.right == n.right.unwrap().left,
        decreases n,
    {
        let ghost gn = n;
        let ghost gr = n.right.unwrap();
        proof {
            assert(sub_wf(gn.left) && sub_wf(gn.right));
            assert(sub_wf(gr.left) && sub_wf(gr.right));
            assert(gn.size == sub_cnt(Some(gn)));
            assert(sub_cnt(Some(gn)) == 1 + sub_cnt(gn.left) + sub_cnt(gn.right));
            assert(sub_cnt(gn.right) == 1 + sub_cnt(gr.left) + sub_cnt(gr.right));
            assert(sub_map(gn.right).dom().contains(gr.key as int));
        }
        let mut n = n;
        let mut r = n.right.take().unwrap();
        let rcolor = r.color;
        r.color = n.color;
        n.color = rcolor;
        n.right = r.left.take();
        let ls = Self::link_size(&n.left);
        let rs = Self::link_size(&n.right);
        n.size = 1 + ls + rs;
        let mid_size = n.size;
        let ghost gmid = n;
        proof {
            assert(sub_map(Some(gmid)) =~= sub_map(gn.left).union_prefer_right(
                sub_map(gr.left),
            ).insert(gn.key as int, gn.val));
            assert forall|k: int| sub_map(gr.left).dom().contains(k) implies k
                > gn.key as int by {
                assert(sub_map(gn.right).dom().contains(k));
            }
            assert forall|k: int| sub_map(Some(gmid)).dom().contains(k) implies k
                < gr.key as int by {
                if sub_map(gn.left).dom().contains(k) {
                    assert(k < gn.key as int);
                } else if sub_map(gr.left).dom().contains(k) {
                } else {
                    assert(k == gn.key as int);
                }
            }
            assert(sub_wf(Some(gmid)));
        }
        let rs2 = Self::link_size(&r.right);
        r.left = Some(n);
        r.size = 1 + mid_size + rs2;
        proof {
            assert(sub_wf(Some(r)));
            assert(!sub_map(gr.right).dom().contains(gn.key as int));
            assert(!sub_map(gr.right).dom().contains(gr.key as int));
            assert(!sub_map(gn.left).dom().contains(gr.key as int));
            assert(!sub_map(gr.left).dom().contains(gr.key as int));
            assert(sub_map(Some(r)) =~= sub_map(Some(gn)));
        }
        r
    }

    /// Rotation moving the left child up, exchanging the two colors.
    fn rotate_right(n: Box<Node<V>>) -> (r: Box<Node<V>>)
        requires
            sub_wf(Some(n)),
            n.left is Some,
        ensures
            sub_wf(Some(r)),
            sub_map(Some(r)) == sub_map(Some(n)),
            sub_cnt(Some(r)) == sub_cnt(Some(n)),
            r.key == n.left.unwrap().key,
            r.val == n.left.unwrap().val,
            r.color == n.color,
            r.left == n.left.unwrap().left,
            r.right matches Some(m) && m.key == n.key && m.val == n.val && m.color == n.left.unwrap().color
                && m.right == n.right && m.left == n.left.unwrap().right,
        decreases n,
    {
        let ghost gn = n;
        let ghost gl = n.left.unwrap();
        proof {
            assert(sub_wf(gn.left) && sub_wf(gn.right));
            assert(sub_wf(gl.left) && sub_wf(gl.right));
            assert(gn.size == sub_cnt(Some(gn)));
            assert(sub_cnt(Some(gn)) == 1 + sub_cnt(gn.left) + sub_cnt(gn.right));
            assert(sub_cnt(gn.left) == 1 + sub_cnt(gl.left) + sub_cnt(gl.right));
            assert(sub_map(gn.left).dom().contains(gl.key as int));
        }
        let mut n = n;
        let mut l = n.left.take().unwrap();
        let lcolor = l.color;
        l.color = n.color;
        n.color = lcolor;
        n.left = l.right.take();
        let ls = Self::link_size(&n.left);
        let rs = Self::link_size(&n.right);
        n.size = 1 + ls + rs;
        let mid_size = n.size;
        let ghost gmid = n;
        proof {
            assert(sub_map(Some(gmid)) =~= sub_map(gl.right).union_prefer_right(
                sub_map(gn.right),
            ).insert(gn.key as int, gn.val));
            assert forall|k: int| sub_map(gl.right).dom().contains(k) implies k
                < gn.key as int by {
                assert(sub_map(gn.left).dom().contains(k));
            }
            assert forall|k: int| sub_map(Some(gmid)).dom().contains(k) implies k
                > gl.key as int by {
                if sub_map(gl.right).dom().contains(k) {
                } else if sub_map(gn.right).dom().contains(k) {
                    assert(k > gn.key as int);
                } else {
                    assert(k == gn.key as int);
                }
            }
            assert(sub_wf(Some(gmid)));
        }
        let ls2 = Self::link_size(&l.left);
        l.right = Some(n);
        l.size = 1 + ls2 + mid_size;
        proof {
            assert(sub_wf(Some(l)));
            assert(sub_map(Some(l)) =~= sub_map(Some(gn)));
        }
        l
    }

    /// Flips the colors of a node and its two children, when both exist.
    fn flip_colors(n: Box<Node<V>>) -> (r: Box<Node<V>>)
        requires
            sub_wf(Some(n)),
        ensures
            sub_wf(Some(r)),
            sub_map(Some(r)) == sub_map(Some(n)),
            sub_cnt(Some(r)) == sub_cnt(Some(n)),
            r.key == n.key && r.val == n.val,
            n.left is Some && n.right is Some ==> {
                &&& r.color == (if n.color == Color::Red {
                    Color::Black
                } else {
                    Color::Red
                })
                &&& (r.left matches Some(m) && m.key == n.left.unwrap().key && m.val
                    == n.left.unwrap().val && m.left == n.left.unwrap().left && m.right
                    == n.left.unwrap().right && m.size == n.left.unwrap().size && m.color == (
                if n.left.unwrap().color == Color::Red {
                    Color::Black
                } else {
                    Color::Red
                }))
                &&& (r.right matches Some(m) && m.key == n.right.unwrap().key && m.val
                    == n.right.unwrap().val && m.left == n.right.unwrap().left && m.right
                    == n.right.unwrap().right && m.size == n.right.unwrap().size && m.color == (
                if n.right.unwrap().color == Color::Red {
                    Color::Black
                } else {
                    Color::Red
                }))
            },
            !(n.left is Some && n.right is Some) ==> r == n,
        decreases n,
    {
        let ghost gn = n;
        let mut n = n;
        if n.left.is_some() && n.right.is_some() {
            n.color = match n.color {
                Color::Red => Color::Black,
                Color::Black => Color::Red,
            };
            let mut l = n.left.take().unwrap();
            l.color = match l.color {
                Color::Red => Color::Black,
                Color::Black => Color::Red,
            };
            n.left = Some(l);
            let mut r = n.right.take().unwrap();
            r.color = match r.color {
                Color::Red => Color::Black,
                Color::Black => Color::Red,
            };
            n.right = Some(r);
            proof {
                let gl = gn.left.unwrap();
                let gr = gn.right.unwrap();
                let nl = n.left.unwrap();
                let nr = n.right.unwrap();
                assert(sub_wf(gn.left) && sub_wf(gn.right));
                assert(nl.left == gl.left && nl.right == gl.right && nl.key == gl.key && nl.size
                    == gl.size && nl.val == gl.val);
                assert(nr.left == gr.left && nr.right == gr.right && nr.key == gr.key && nr.size
                    == gr.size && nr.val == gr.val);
                assert(sub_map(n.left) =~= sub_map(gn.left));
                assert(sub_map(n.right) =~= sub_map(gn.right));
                assert(sub_cnt(n.left) == sub_cnt(gn.left));
                assert(sub_cnt(n.right) == sub_cnt(gn.right));
                assert(sub_map(Some(n)) =~= sub_map(Some(gn)));
                assert(sub_wf(n.left));
                assert(sub_wf(n.right));
                assert(sub_wf(Some(n)));
            }
            n
        } else {
            n
        }
    }

    /// The insert-time repair: fix a right-leaning red link, then a
    /// red-red pair on the left, then split a node with two red children.
    fn fixup(n: Box<Node<V>>) -> (r: Box<Node<V>>)
        requires
            sub_wf(Some(n)),
        ensures
            sub_wf(Some(r)),
            sub_map(Some(r)) == sub_map(Some(n)),
            sub_cnt(Some(r)) == sub_cnt(Some(n)),
            ({
                &&& bh(n.left) == bh(n.right)
                &&& (rb(n.left) || almost(n.left))
                &&& rb(n.right)
                &&& (almost(n.left) ==> n.color == Color::Black && !red(n.right))
                &&& (n.color == Color::Red ==> !(red(n.left) && red(n.right)))
            }) ==> {
                &&& bh(Some(r)) == bh(Some(n))
                &&& (rb(Some(r)) || (n.color == Color::Red && almost(Some(r))))
            },
        decreases n,
    {
        let ghost gn = n;
        let ghost pre = {
            &&& bh(gn.left) == bh(gn.right)
            &&& (rb(gn.left) || almost(gn.left))
            &&& rb(gn.right)
            &&& (almost(gn.left) ==> gn.color == Color::Black && !red(gn.right))
            &&& (gn.color == Color::Red ==> !(red(gn.left) && red(gn.right)))
        };
        let mut n = n;
        let cond1 = Self::is_red(&n.right) && !Self::is_red(&n.left);
        if cond1 {
            n = Self::rotate_left(n);
        }
        let ghost g1 = n;
        proof {
            if pre {
                if cond1 {
                    let gr = gn.right.unwrap();
                    let gm = g1.left.unwrap();
                    assert(rb(Some(gr)));
                    assert(rb(gr.left) && rb(gr.right) && !red(gr.right) && !red(gr.left));
                    assert(rb(gn.left));
                    assert(gm.color == Color::Red && gm.left == gn.left && gm.right == gr.left);
                    assert(bh(Some(gr)) == bh(gr.left));
                    assert(bh(gn.left) == bh(Some(gr)));
                    assert(bh(Some(gm)) == bh(gn.left));
                    assert(rb(Some(gm)));
                    assert(g1.right == gr.right && g1.color == gn.color);
                    assert(bh(Some(g1)) == bh(gn.left) + (if gn.color == Color::Black {
                        1nat
                    } else {
                        0nat
                    }));
                    assert(bh(Some(g1)) == bh(Some(gn)));
                    // after the rotation the left child is red and red-black
                    assert(red(g1.left) && rb(g1.left) && rb(g1.right) && !red(g1.right));
                    assert(bh(g1.left) == bh(g1.right));
                } else {
                    assert(g1 == gn);
                }
            }
        }
        let do_rr = if Self::is_red(&n.left) {
            match &n.left {
                Some(l) => Self::is_red(&l.left),
                None => false,
            }
        } else {
            false
        };
        if do_rr {
            n = Self::rotate_right(n);
        }
        let ghost g2 = n;
        proof {
            if pre {
                if do_rr {
                    if cond1 {
                        // the rotated-in left child is red-black, so its own
                        // left child cannot be red
                        assert(rb(g1.left) && red(g1.left));
                        assert(!red(g1.left.unwrap().left));
                        assert(false);
                    }
                    assert(g1 == gn);
                    assert(almost(gn.left)) by {
                        if rb(gn.left) && red(gn.left) {
                            assert(!red(gn.left.unwrap().left));
                        }
                    }
                    let gl = gn.left.unwrap();
                    let gm = g2.right.unwrap();
                    assert(gn.color == Color::Black && !red(gn.right));
                    assert(red(gl.left) && rb(gl.left) && rb(gl.right) && !red(gl.right));
                    assert(bh(gl.left) == bh(gl.right));
                    assert(bh(Some(gl)) == bh(gl.left));
                    assert(bh(gn.right) == bh(gl.left));
                    assert(g2.color == Color::Black && g2.left == gl.left);
                    assert(gm.color == Color::Red && gm.left == gl.right && gm.right == gn.right);
                    assert(bh(Some(gm)) == bh(gl.right));
                    assert(rb(Some(gm)));
                    assert(bh(g2.left) == bh(g2.right));
                    assert(rb(g2.left) && red(g2.left) && red(g2.right) && rb(g2.right));
                    assert(bh(Some(g2)) == bh(gl.left) + 1);
                    assert(bh(Some(gn)) == bh(gn.left) + 1);
                    assert(bh(Some(g2)) == bh(Some(gn)));
                } else {
                    assert(g2 == g1);
                }
            }
        }
        let cond3 = Self::is_red(&n.left) && Self::is_red(&n.right);
        if cond3 {
            n = Self::flip_colors(n);
        }
        let ghost g3 = n;
        proof {
            if pre {
                if cond3 {
                    // a node with two red children is black here, and the
                    // flip turns it red with two black red-black children
                    assert(g2.color == Color::Black) by {
                        if !do_rr {
                            if cond1 {
                                assert(!red(g1.right));
                                assert(false);
                            }
                            assert(g2 == gn);
                            if almost(gn.left) {
                                assert(!red(gn.right));
                                assert(false);
                            }
                            assert(rb(gn.left) && rb(gn.right));
                            if gn.color == Color::Red {
                                assert(!(red(gn.left) && red(gn.right)));
                                assert(false);
                            }
                        }
                    }
                    assert(rb(g2.left) && rb(g2.right) && bh(g2.left) == bh(g2.right)) by {
                        if !do_rr {
                            assert(g2 == gn);
                            assert(rb(gn.left)) by {
                                if almost(gn.left) {
                                    assert(red(gn.left.unwrap().left));
                                }
                            }
                        }
                    }
                    let ol = g2.left.unwrap();
                    let or = g2.right.unwrap();
                    let nl = g3.left.unwrap();
                    let nr = g3.right.unwrap();
                    assert(g3.color == Color::Red);
                    assert(nl.color == Color::Black && nl.left == ol.left && nl.right == ol.right);
                    assert(nr.color == Color::Black && nr.left == or.left && nr.right == or.right);
                    assert(rb(Some(ol)) && rb(Some(or)));
                    assert(rb(Some(nl)) && rb(Some(nr)));
                    assert(bh(Some(nl)) == bh(ol.left) + 1);
                    assert(bh(Some(ol)) == bh(ol.left));
                    assert(bh(Some(nr)) == bh(or.left) + 1);
                    assert(bh(Some(or)) == bh(or.left));
                    assert(bh(Some(nl)) == bh(Some(nr)));
                    assert(rb(Some(g3)));
                    assert(bh(Some(g3)) == bh(Some(ol)) + 1);
                    assert(bh(Some(g2)) == bh(Some(ol)) + 1);
                    assert(bh(Some(g3)) == bh(Some(g2)));
                    assert(bh(Some(g3)) == bh(Some(gn)));
                } else {
                    assert(g3 == g2);
                    // no flip: show the result is red-black or an allowed
                    // red-red pair at a red root
                    if do_rr {
                        assert(red(g3.left) && red(g3.right));
                        assert(false);
                    }
                    if cond1 {
                        assert(g3 == g1);
                        if g3.color == Color::Red {
                            assert(almost(Some(g3)));
                        } else {
                            assert(rb(Some(g3)));
                        }
                    } else {
                        assert(g3 == gn);
                        assert(!red(gn.right)) by {
                            if red(gn.right) {
                                assert(red(gn.left));
                                assert(cond3);
                            }
                        }
                        assert(rb(gn.left)) by {
                            if almost(gn.left) {
                                assert(red(gn.left.unwrap().left));
                                assert(do_rr);
                            }
                        }
                        if gn.color == Color::Red && red(gn.left) {
                            assert(almost(Some(g3)));
                        } else {
                            assert(rb(Some(g3)));
                        }
                    }
                    assert(bh(Some(g3)) == bh(Some(gn)));
                }
            }
        }
        let ls = Self::link_size(&n.left);
        let rs = Self::link_size(&n.right);
        proof {
            assert(g3.size == sub_cnt(Some(g3)));
        }
        n.size = 1 + ls + rs;
        proof {
            assert(sub_map(Some(n)) =~= sub_map(Some(g3)));
            assert(sub_wf(Some(n)));
            if pre {
                assert(n.left == g3.left && n.right == g3.right && n.color == g3.color);
                assert(bh(Some(n)) == bh(Some(g3)));
                assert(rb(Some(g3)) ==> rb(Some(n)));
                assert(almost(Some(g3)) ==> almost(Some(n)));
                assert(bh(Some(n)) == bh(Some(gn)) && (rb(Some(n)) || (gn.color == Color::Red
                    && almost(Some(n)))));
            }
        }
        n
    }

    fn insert_node(node: Link<V>, key: i32, val: V) -> (r: Box<Node<V>>)
        requires
            sub_wf(node),
            sub_cnt(node) < usize::MAX,
        ensures
            sub_wf(Some(r)),
            sub_map(Some(r)) == sub_map(node).insert(key as int, val),
            sub_cnt(node) <= sub_cnt(Some(r)) <= sub_cnt(node) + 1,
            rb(node) ==> {
                &&& bh(Some(r)) == bh(node)
                &&& (rb(Some(r)) || (red(node) && almost(Some(r))))
            },
        decreases node,
    {
        match node {
            None => {
                let n = Box::new(
                    Node { key, val, left: None, right: None, color: Color::Red, size: 1 },
                );
                proof {
                    assert(sub_map(n.left) =~= Map::<int, V>::empty());
                    assert(sub_map(Some(n)) =~= Map::<int, V>::empty().insert(key as int, val));
                    assert(rb(n.left) && rb(n.right));
                    assert(rb(Some(n)));
                    assert(bh(Some(n)) == 0);
                }
                n
            },
            Some(mut n) => {
                let ghost gn = n;
                if key == n.key {
                    n.val = val;
                    proof {
                        assert(!sub_map(gn.left).dom().contains(key as int));
                        assert(!sub_map(gn.right).dom().contains(key as int));
                        assert(sub_map(Some(n)) =~= sub_map(Some(gn)).insert(key as int, val));
                        assert(sub_wf(Some(n)));
                        if rb(Some(gn)) {
                            assert(rb(Some(n)));
                            assert(bh(Some(n)) == bh(Some(gn)));
                            assert(almost(n.left) ==> false) by {
                                if almost(n.left) {
                                    assert(n.left == gn.left);
                                    assert(red(gn.left));
                                    assert(rb(gn.left));
                                    assert(red(gn.left.unwrap().left));
                                    assert(gn.left.unwrap().color == Color::Red ==> !red(
                                        gn.left.unwrap().left,
                                    ));
                                }
                            }
                        }
                    }
                    Self::fixup(n)
                } else if key < n.key {
                    let sub = Self::insert_node(n.left.take(), key, val);
                    n.left = Some(sub);
                    let ls = Self::link_size(&n.left);
                    let rs = Self::link_size(&n.right);
                    n.size = 1 + ls + rs;
                    proof {
                        assert(!sub_map(gn.right).dom().contains(key as int));
                        assert(sub_map(Some(n)) =~= sub_map(Some(gn)).insert(key as int, val));
                        assert(sub_wf(Some(n)));
                        if rb(Some(gn)) {
                            if red(gn.left) {
                                assert(gn.color == Color::Black);
                            }
                            assert(rb(n.left) || almost(n.left));
                            assert(almost(n.left) ==> red(gn.left));
                            assert(!red(gn.right));
                            assert(bh(n.left) == bh(Some(sub)) && bh(Some(sub)) == bh(gn.left));
                            assert(bh(n.left) == bh(n.right));
                            assert(bh(Some(n)) == bh(Some(gn)));
                        }
                    }
                    Self::fixup(n)
                } else {
                    let sub = Self::insert_node(n.right.take(), key, val);
                    n.right = Some(sub);
                    let ls = Self::link_size(&n.left);
                    let rs = Self::link_size(&n.right);
                    n.size = 1 + ls + rs;
                    proof {
                        assert(!sub_map(gn.left).dom().contains(key as int));
                        assert(sub_map(Some(n)) =~= sub_map(Some(gn)).insert(key as int, val));
                        assert(sub_wf(Some(n)));
                        if rb(Some(gn)) {
                            assert(!red(gn.right));
                            assert(rb(n.right));
                            assert(rb(n.left));
                            assert(almost(n.left) ==> false);
                            assert(bh(n.right) == bh(Some(sub)) && bh(Some(sub)) == bh(gn.right));
                            assert(bh(n.left) == bh(n.right));
                            assert(bh(Some(n)) == bh(Some(gn)));
                            assert(gn.color == Color::Red ==> !red(gn.left));
                        }
                    }
                    Self::fixup(n)
                }
            },
        }
    }

    /// Moves redness to the left child before descending left.
    fn move_red_left(n: Box<Node<V>>) -> (r: Box<Node<V>>)
        requires
            sub_wf(Some(n)),
        ensures
            sub_wf(Some(r)),
            sub_map(Some(r)) == sub_map(Some(n)),
            sub_cnt(Some(r)) == sub_cnt(Some(n)),
            r.key >= n.key,
        decreases n,
    {
        let ghost gn = n;
        let mut n = Self::flip_colors(n);
        let rl_red = match &n.right {
            Some(rn) => Self::is_red(&rn.left),
            None => false,
        };
        if rl_red {
            proof {
                assert(sub_wf(n.right));
            }
            let ghost g0 = n;
            let rn = n.right.take().unwrap();
            let rot = Self::rotate_right(rn);
            n.right = Some(rot);
            proof {
                assert(sub_map(n.right) == sub_map(g0.right));
                assert(sub_cnt(n.right) == sub_cnt(g0.right));
                assert(sub_map(Some(n)) =~= sub_map(Some(g0)));
                assert(sub_wf(Some(n)));
                assert(n.right is Some);
            }
            let ghost g1 = n;
            n = Self::rotate_left(n);
            proof {
                assert(sub_map(g1.right).dom().contains(n.key as int));
                assert((n.key as int) > (g1.key as int));
            }
            n = Self::flip_colors(n);
        }
        n
    }

    /// Moves redness to the right child before descending right.
    fn move_red_right(n: Box<Node<V>>) -> (r: Box<Node<V>>)
        requires
            sub_wf(Some(n)),
        ensures
            sub_wf(Some(r)),
            sub_map(Some(r)) == sub_map(Some(n)),
            sub_cnt(Some(r)) == sub_cnt(Some(n)),
            r.key <= n.key,
        decreases n,
    {
        let ghost gn = n;
        let mut n = Self::flip_colors(n);
        let ll_red = match &n.left {
            Some(ln) => Self::is_red(&ln.left),
            None => false,
        };
        if ll_red {
            let ghost g1 = n;
            n = Self::rotate_right(n);
            proof {
                assert(sub_map(g1.left).dom().contains(n.key as int));
                assert((n.key as int) < (g1.key as int));
            }
            n = Self::flip_colors(n);
        }
        n
    }

    /// Detaches the least pair of a subtree, repairing on the way out.
    fn remove_min(node: Box<Node<V>>) -> (r: (Link<V>, i32, V))
        requires
            sub_wf(Some(node)),
        ensures
            sub_wf(r.0),
            sub_map(Some(node)).dom().contains(r.1 as int),
            r.2 == sub_map(Some(node))[r.1 as int],
            sub_map(r.0) == sub_map(Some(node)).remove(r.1 as int),
            forall|k: int| sub_map(Some(node)).dom().contains(k) ==> r.1 as int <= k,
            sub_cnt(r.0) == sub_cnt(Some(node)) - 1,
        decreases sub_cnt(Some(node)),
    {
        let ghost gn = node;
        let mut n = node;
        if n.left.is_none() {
            let b = *n;
            let Node { key, val, left: _, right, color: _, size: _ } = b;
            proof {
                assert(sub_map(gn.left) =~= Map::<int, V>::empty());
                assert(!sub_map(right).dom().contains(key as int));
                assert(sub_map(right) =~= sub_map(Some(gn)).remove(key as int));
            }
            return (right, key, val);
        }
        let need = !Self::is_red(&n.left) && !(match &n.left {
            Some(l) => Self::is_red(&l.left),
            None => false,
        });
        if need {
            n = Self::move_red_left(n);
        }
        let ghost g1 = n;
        let mut lnk = None;
        core::mem::swap(&mut lnk, &mut n.left);
        match lnk {
            None => {
                let b = *n;
                let Node { key, val, left: _, right, color: _, size: _ } = b;
                proof {
                    assert(sub_map(g1.left) =~= Map::<int, V>::empty());
                    assert(sub_cnt(Some(g1)) == 1 + sub_cnt(g1.left) + sub_cnt(g1.right));
                    assert(!sub_map(right).dom().contains(key as int));
                    assert(sub_map(right) =~= sub_map(Some(g1)).remove(key as int));
                    assert(sub_map(Some(g1)) == sub_map(Some(gn)));
                }
                (right, key, val)
            },
            Some(l) => {
                let ghost gl = l;
                let (rest, k, v) = Self::remove_min(l);
                n.left = rest;
                let ls = Self::link_size(&n.left);
                let rs = Self::link_size(&n.right);
                proof {
                    assert(g1.size == sub_cnt(Some(g1)));
                }
                n.size = 1 + ls + rs;
                proof {
                    assert(sub_map(g1.left).dom().contains(k as int));
                    assert((k as int) < (g1.key as int));
                    assert(!sub_map(g1.right).dom().contains(k as int));
                    assert(sub_map(Some(n)) =~= sub_map(Some(g1)).remove(k as int));
                    assert(sub_wf(Some(n)));
                    assert forall|q: int| sub_map(Some(gn)).dom().contains(q) implies (k as int)
                        <= q by {
                        assert(sub_map(Some(gn)) == sub_map(Some(g1)));
                        if sub_map(g1.left).dom().contains(q) {
                        } else if sub_map(g1.right).dom().contains(q) {
                            assert(q > g1.key as int);
                        } else {
                            assert(q == g1.key as int);
                        }
                    }
                }
                let out = Self::fixup(n);
                (Some(out), k, v)
            },
        }
    }

    /// Removes a key that is known to be present.
    #[verifier::rlimit(100)]
    fn remove_node(node: Box<Node<V>>, key: i32) -> (r: Link<V>)
        requires
            sub_wf(Some(node)),
            sub_map(Some(node)).dom().contains(key as int),
        ensures
            sub_wf(r),
            sub_map(r) == sub_map(Some(node)).remove(key as int),
            sub_cnt(r) == sub_cnt(Some(node)) - 1,
        decreases sub_cnt(Some(node)),
    {
        let ghost gn = node;
        let mut n = node;
        if key < n.key {
            proof {
                assert(!sub_map(gn.right).dom().contains(key as int));
                assert(sub_map(gn.left).dom().contains(key as int));
            }
            let need = !Self::is_red(&n.left) && !(match &n.left {
                Some(l) => Self::is_red(&l.left),
                None => false,
            });
            if need {
                n = Self::move_red_left(n);
            }
            let ghost g1 = n;
            proof {
                assert(key < g1.key);
                assert(!sub_map(g1.right).dom().contains(key as int));
                assert(sub_map(g1.left).dom().contains(key as int));
            }
            let mut lnk = None;
            core::mem::swap(&mut lnk, &mut n.left);
            match lnk {
                None => {
                    proof {
                        assert(false);
                    }
                    vstd::pervasive::unreached()
                },
                Some(l) => {
                    let sub = Self::remove_node(l, key);
                    n.left = sub;
                    let ls = Self::link_size(&n.left);
                    let rs = Self::link_size(&n.right);
                    proof {
                        assert(g1.size == sub_cnt(Some(g1)));
                    }
                    n.size = 1 + ls + rs;
                    proof {
                        assert(sub_map(Some(n)) =~= sub_map(Some(g1)).remove(key as int));
                        assert(sub_wf(Some(n)));
                        assert(sub_cnt(Some(g1)) == 1 + sub_cnt(g1.left) + sub_cnt(g1.right));
                        assert(sub_cnt(Some(n)) == sub_cnt(Some(g1)) - 1);
                    }
                    Some(Self::fixup(n))
                },
            }
        } else {
            if key == n.key && n.left.is_none() && n.right.is_none() {
                proof {
                    assert(sub_map(gn.left) =~= Map::<int, V>::empty());
                    assert(sub_map(gn.right) =~= Map::<int, V>::empty());
                    assert(sub_map(Some(gn)).remove(key as int) =~= Map::<int, V>::empty());
                    assert(sub_map(None::<Box<Node<V>>>) =~= Map::<int, V>::empty());
                }
                return None;
            }
            if Self::is_red(&n.left) {
                n = Self::rotate_right(n);
            }
            let ghost g1 = n;
            proof {
                assert(key >= g1.key || sub_map(g1.right).dom().contains(key as int)
                    || sub_map(g1.left).dom().contains(key as int));
                assert(key >= g1.key) by {
                    if key < g1.key {
                        assert(sub_map(Some(g1)).dom().contains(key as int));
                        if g1 != gn {
                            assert(sub_map(gn.left).dom().contains(g1.key as int));
                        }
                        assert(key >= gn.key);
                        assert(sub_map(gn.left).dom().contains(key as int)
                            || sub_map(gn.right).dom().contains(key as int) || key == gn.key);
                        if sub_map(gn.left).dom().contains(key as int) {
                            assert(key < gn.key);
                        }
                        if sub_map(gn.right).dom().contains(key as int) {
                            assert(key > gn.key);
                        }
                    }
                }
            }
            if n.right.is_none() {
                proof {
                    assert(sub_map(g1.right) =~= Map::<int, V>::empty());
                    if key != g1.key {
                        assert(sub_map(g1.left).dom().contains(key as int));
                        assert(key < g1.key);
                        assert(false);
                    }
                    assert(!sub_map(g1.left).dom().contains(key as int));
                    assert(sub_map(g1.left) =~= sub_map(Some(g1)).remove(key as int));
                    assert(sub_cnt(Some(g1)) == 1 + sub_cnt(g1.left) + sub_cnt(g1.right));
                    assert(sub_cnt(g1.right) == 0);
                }
                let b = *n;
                return b.left;
            }
            let need = !Self::is_red(&n.right) && !(match &n.right {
                Some(rn) => Self::is_red(&rn.left),
                None => false,
            });
            if need {
                n = Self::move_red_right(n);
            }
            let ghost g2 = n;
            proof {
                assert(key >= g2.key);
            }
            if key == n.key {
                let mut rnk = None;
                core::mem::swap(&mut rnk, &mut n.right);
                match rnk {
                    None => {
                        proof {
                            assert(sub_map(g2.right) =~= Map::<int, V>::empty());
                            assert(!sub_map(g2.left).dom().contains(key as int));
                            assert(sub_map(g2.left) =~= sub_map(Some(g2)).remove(key as int));
                            assert(sub_cnt(Some(g2)) == 1 + sub_cnt(g2.left) + sub_cnt(g2.right));
                            assert(sub_cnt(g2.right) == 0);
                        }
                        let b = *n;
                        b.left
                    },
                    Some(rt) => {
                        let (rest, sk, sv) = Self::remove_min(rt);
                        n.key = sk;
                        n.val = sv;
                        n.right = rest;
                        let ls = Self::link_size(&n.left);
                        let rs = Self::link_size(&n.right);
                        proof {
                            assert(g2.size == sub_cnt(Some(g2)));
                        }
                        n.size = 1 + ls + rs;
                        proof {
                            assert(sub_map(g2.right).dom().contains(sk as int));
                            assert((sk as int) > (g2.key as int));
                            assert(sk != key);
                            assert(!sub_map(g2.left).dom().contains(key as int));
                            assert(!sub_map(n.right).dom().contains(key as int));
                            assert(sub_map(n.right) == sub_map(g2.right).remove(sk as int));
                            assert forall|q: int| sub_map(n.right).dom().contains(q) implies q
                                > sk as int by {
                                assert(sub_map(g2.right).dom().contains(q));
                            }
                            assert forall|q: int| sub_map(n.left).dom().contains(q) implies q
                                < sk as int by {
                                assert(q < g2.key as int);
                            }
                            assert(sub_wf(Some(n)));
                            assert(sub_map(Some(n)) =~= sub_map(Some(g2)).remove(key as int));
                            assert(sub_cnt(Some(g2)) == 1 + sub_cnt(g2.left) + sub_cnt(g2.right));
                            assert(sub_cnt(Some(n)) == sub_cnt(Some(g2)) - 1);
                        }
                        Some(Self::fixup(n))
                    },
                }
            } else {
                proof {
                    assert(key > g2.key);
                    assert(sub_map(Some(g2)) == sub_map(Some(gn)));
                    assert(sub_map(Some(g2)).dom().contains(key as int));
                    assert(sub_map(g2.right).dom().contains(key as int)) by {
                        if !sub_map(g2.right).dom().contains(key as int) {
                            if sub_map(g2.left).dom().contains(key as int) {
                                assert(key < g2.key);
                            } else {
                                assert(key == g2.key);
                            }
                        }
                    }
                }
                let mut rnk = None;
                core::mem::swap(&mut rnk, &mut n.right);
                match rnk {
                    None => {
                        proof {
                            assert(false);
                        }
                        vstd::pervasive::unreached()
                    },
                    Some(rt) => {
                        let sub = Self::remove_node(rt, key);
                        n.right = sub;
                        let ls = Self::link_size(&n.left);
                        let rs = Self::link_size(&n.right);
                        proof {
                            assert(g2.size == sub_cnt(Some(g2)));
                        }
                        n.size = 1 + ls + rs;
                        proof {
                            assert(!sub_map(g2.left).dom().contains(key as int));
                            assert(key != g2.key);
                            assert(sub_map(n.right) == sub_map(g2.right).remove(key as int));
                            assert(sub_map(Some(n)) =~= sub_map(Some(g2)).remove(key as int));
                            assert(sub_wf(Some(n)));
                            assert(sub_cnt(Some(g2)) == 1 + sub_cnt(g2.left) + sub_cnt(g2.right));
                            assert(sub_cnt(Some(n)) == sub_cnt(Some(g2)) - 1);
                        }
                        Some(Self::fixup(n))
                    },
                }
            }
        }
    }

    /// Removes the key if present; returns whether it was present.
    pub fn remove(&mut self, key: &i32) -> (r: bool)
        ensures
            r == old(self)@.dom().contains(*key as int),
            final(self)@ == old(self)@.remove(*key as int),
    {
        proof {
            use_type_invariant(&*self);
        }
        let present = self.get(key).is_some();
        if !present {
            proof {
                assert(self@ =~= self@.remove(*key as int));
            }
            return false;
        }
        let mut root = None;
        core::mem::swap(&mut root, &mut self.root);
        match root {
            None => {
                proof {
                    assert(false);
                }
                vstd::pervasive::unreached()
            },
            Some(mut n) => {
                let ghost gn = n;
                if !Self::is_red(&n.left) && !Self::is_red(&n.right) {
                    n.color = Color::Red;
                }
                proof {
                    assert(sub_map(Some(n)) =~= sub_map(Some(gn)));
                    assert(sub_wf(Some(n)));
                }
                let sub = Self::remove_node(n, *key);
                match sub {
                    None => {
                        self.root = None;
                    },
                    Some(mut m) => {
                        let ghost gm = m;
                        m.color = Color::Black;
                        proof {
                            assert(sub_map(Some(m)) =~= sub_map(Some(gm)));
                            assert(sub_wf(Some(m)));
                        }
                        self.root = Some(m);
                    },
                }
                true
            },
        }
    }


    /// Consumes the map, yielding all pairs in ascending key order via
    /// an explicit pending-node stack, never recursion.
    #[verifier::spinoff_prover]
    pub fn into_iter(self) -> (r: Vec<(i32, V)>)
        ensures
            r@.len() == self@.len(),
            forall|i: int|
                0 <= i < r@.len() ==> self@.dom().contains((#[trigger] r@[i]).0 as int) && r@[i].1
                    == self@[r@[i].0 as int],
            forall|i: int, j: int|
                0 <= i < j < r@.len() ==> (#[trigger] r@[i]).0 < (#[trigger] r@[j]).0,
            forall|q: int|
                self@.dom().contains(q) ==> exists|i: int|
                    0 <= i < r@.len() && (#[trigger] r@[i]).0 as int == q,
    {
        proof {
            use_type_invariant(&self);
        }
        let RBTreeMap { root } = self;
        let ghost groot = root;
        proof {
            lemma_kv(groot);
            lemma_cnt(groot);
        }
        let mut out: Vec<(i32, V)> = Vec::new();
        let mut stack: Vec<Box<Node<V>>> = Vec::new();
        let mut cur: Link<V> = root;
        proof {
            assert(out@ + kv_seq(cur) + trav_rest(stack@) =~= kv_seq(groot));
        }
        while cur.is_some() || stack.len() > 0
            invariant
                out@ + kv_seq(cur) + trav_rest(stack@) == kv_seq(groot),
            decreases 2 * sub_cnt(cur) + pot_rest(stack@),
        {
            match cur {
                Some(mut b) => {
                    let ghost gb = b;
                    let mut lf = None;
                    core::mem::swap(&mut lf, &mut b.left);
                    let ghost gs = stack@;
                    stack.push(b);
                    cur = lf;
                    proof {
                        assert(stack@.last() == b && stack@.drop_last() =~= gs);
                        assert(trav_rest(stack@) == seq![(gb.key, gb.val)] + kv_seq(gb.right)
                            + trav_rest(gs));
                        assert(out@ + kv_seq(cur) + trav_rest(stack@) =~= kv_seq(groot));
                        assert(pot_rest(stack@) == 1 + 2 * sub_cnt(gb.right) + pot_rest(gs));
                        assert(sub_cnt(Some(gb)) == 1 + sub_cnt(gb.left) + sub_cnt(gb.right));
                    }
                },
                None => {
                    let ghost gs = stack@;
                    let t = stack.pop().unwrap();
                    proof {
                        assert(t == gs.last() && stack@ =~= gs.drop_last());
                        assert(kv_seq(cur) =~= Seq::<(i32, V)>::empty());
                    }
                    let b = *t;
                    let Node { key, val, left: _, right, color: _, size: _ } = b;
                    out.push((key, val));
                    cur = right;
                    proof {
                        assert(out@ + kv_seq(cur) + trav_rest(stack@) =~= kv_seq(groot));
                        assert(pot_rest(gs) == 1 + 2 * sub_cnt(gs.last().right) + pot_rest(
                            stack@,
                        ));
                    }
                },
            }
        }
        proof {
            assert(kv_seq(cur) =~= Seq::<(i32, V)>::empty());
            assert(trav_rest(stack@) =~= Seq::<(i32, V)>::empty());
            assert(out@ =~= kv_seq(groot));
        }
        out
    }

    fn shape_check(l: &Link<V>) -> (r: (bool, usize))
        requires
            sub_wf(*l),
        ensures
            r.0 == rb_shape(*l),
            r.0 ==> r.1 == bh(*l),
        decreases *l,
    {
        match l {
            None => (true, 0),
            Some(n) => {
                proof {
                    lemma_bh_le_cnt(n.left);
                    assert(n.size == sub_cnt(*l));
                }
                let (lb, lh) = Self::shape_check(&n.left);
                let (rbk, rh) = Self::shape_check(&n.right);
                let self_red = matches!(n.color, Color::Red);
                let ok = lb && rbk && lh == rh && !(self_red && (Self::is_red(&n.left)
                    || Self::is_red(&n.right)));
                if ok {
                    (true, if self_red {
                        lh
                    } else {
                        lh + 1
                    })
                } else {
                    (false, 0)
                }
            },
        }
    }

    /// The red-black law, decided at run time by a recursive counter: no
    /// red node has a red child, and every path carries the same number
    /// of black nodes.
    pub fn check_rb(&self) -> (r: bool)
        ensures
            r == self.rb_shape_holds(),
    {
        proof {
            use_type_invariant(&*self);
        }
        let (ok, _) = Self::shape_check(&self.root);
        ok
    }

    /// The weaker red-black law decided by `check_rb`.
    pub closed spec fn rb_shape_holds(self) -> bool {
        rb_shape(self.root)
    }

    spec fn root_spec(self) -> Link<V> {
        self.root
    }

    /// Writes `key -> val`, overwriting an existing value for the key.
    /// The red-black discipline is preserved.
    pub fn insert(&mut self, key: i32, val: V)
        requires
            old(self)@.len() < usize::MAX,
        ensures
            final(self)@ == old(self)@.insert(key as int, val),
            old(self).rb_invariant() ==> final(self).rb_invariant(),
    {
        proof {
            use_type_invariant(&*self);
            lemma_cnt(self.root);
        }
        let mut root = None;
        core::mem::swap(&mut root, &mut self.root);
        let mut n = Self::insert_node(root, key, val);
        n.color = Color::Black;
        self.root = Some(n);
    }
}



impl<V: Copy> RBTreeMap<V> {
    /// Yields all pairs in ascending key order, copying the values,
    /// via the same explicit-stack in-order walk.
    #[verifier::spinoff_prover]
    pub fn iter(&self) -> (r: Vec<(i32, V)>)
        ensures
            r@.len() == self@.len(),
            forall|i: int|
                0 <= i < r@.len() ==> self@.dom().contains((#[trigger] r@[i]).0 as int) && r@[i].1
                    == self@[r@[i].0 as int],
            forall|i: int, j: int|
                0 <= i < j < r@.len() ==> (#[trigger] r@[i]).0 < (#[trigger] r@[j]).0,
            forall|q: int|
                self@.dom().contains(q) ==> exists|i: int|
                    0 <= i < r@.len() && (#[trigger] r@[i]).0 as int == q,
    {
        proof {
            use_type_invariant(&*self);
            lemma_kv(self.root);
            lemma_cnt(self.root);
        }
        let ghost groot = self.root;
        let mut out: Vec<(i32, V)> = Vec::new();
        let mut stack: Vec<&Box<Node<V>>> = Vec::new();
        let mut cur: &Link<V> = &self.root;
        proof {
            assert(out@ + kv_seq(*cur) + trav_rest_ref(stack@) =~= kv_seq(groot));
        }
        while cur.is_some() || stack.len() > 0
            invariant
                out@ + kv_seq(*cur) + trav_rest_ref(stack@) == kv_seq(groot),
            decreases 2 * sub_cnt(*cur) + pot_rest_ref(stack@),
        {
            match cur {
                Some(b) => {
                    let ghost gs = stack@;
                    stack.push(b);
                    cur = &b.left;
                    proof {
                        assert(stack@.last() == b && stack@.drop_last() =~= gs);
                        assert(out@ + kv_seq(*cur) + trav_rest_ref(stack@) =~= kv_seq(groot));
                        assert(pot_rest_ref(stack@) == 1 + 2 * sub_cnt(b.right) + pot_rest_ref(
                            gs,
                        ));
                        assert(sub_cnt(Some(*b)) == 1 + sub_cnt(b.left) + sub_cnt(b.right));
                    }
                },
                None => {
                    let ghost gs = stack@;
                    let t = stack.pop().unwrap();
                    proof {
                        assert(t == gs.last() && stack@ =~= gs.drop_last());
                        assert(kv_seq(*cur) =~= Seq::<(i32, V)>::empty());
                    }
                    out.push((t.key, t.val));
                    cur = &t.right;
                    proof {
                        assert(out@ + kv_seq(*cur) + trav_rest_ref(stack@) =~= kv_seq(groot));
                        assert(pot_rest_ref(gs) == 1 + 2 * sub_cnt(gs.last().right)
                            + pot_rest_ref(stack@));
                    }
                },
            }
        }
        proof {
            assert(kv_seq(*cur) =~= Seq::<(i32, V)>::empty());
            assert(trav_rest_ref(stack@) =~= Seq::<(i32, V)>::empty());
            assert(out@ =~= kv_seq(groot));
        }
        out
    }
}

/// The red-black discipline kept by `new` and `insert` implies the
/// shape that `check_rb` decides: no red-red edge and equal black
/// counts on every path.
pub proof fn lemma_rb_invariant_implies_shape<V>(m: RBTreeMap<V>)
    requires
        m.rb_invariant(),
    ensures
        m.rb_shape_holds(),
{
    lemma_rb_implies_shape(m.root_spec());
}

} // verus!
