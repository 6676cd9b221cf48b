use vstd::prelude::*;

verus! {

broadcast use vstd::map::group_map_axioms, vstd::map_lib::group_map_union, vstd::set_lib::group_set_lib_default;

/// A treap map from `i32` keys to values: a binary search tree on keys
/// whose shape is governed by random priorities drawn at node creation.
///
/// The view is the map of stored pairs.  Unlike the other map variants,
/// `insert` rejects a key that is already present instead of
/// overwriting it, and `remove` steps to the key's successor, so it
/// treats the largest key specially.
pub struct TreapMap<V> {
    root: Link<V>,
}

struct Node<V> {
    key: i32,
    val: V,
    pri: u64,
    left: Link<V>,
    right: Link<V>,
}

type Link<V> = Option<Box<Node<V>>>;

spec fn sub_map<V>(l: Link<V>) -> Map<int, V>
    decreases l,
{
    match l {
        None => Map::empty(),
        Some(n) => sub_map(n.left).union_prefer_right(sub_map(n.right)).insert(
            n.key as int,
            n.val,
        ),
    }
}

spec fn sub_cnt<V>(l: Link<V>) -> nat
    decreases l,
{
    match l {
        None => 0,
        Some(n) => 1 + sub_cnt(n.left) + sub_cnt(n.right),
    }
}

spec fn sub_wf<V>(l: Link<V>) -> bool
    decreases l,
{
    match l {
        None => true,
        Some(n) => {
            &&& sub_wf(n.left)
            &&& sub_wf(n.right)
            &&& forall|k: int| sub_map(n.left).dom().contains(k) ==> k < n.key as int
            &&& forall|k: int| sub_map(n.right).dom().contains(k) ==> k > n.key as int
        },
    }
}

/// Every key of a subtree's map is a 32-bit value.
proof fn lemma_keys_range<V>(l: Link<V>)
    ensures
        forall|q: int|
            sub_map(l).dom().contains(q) ==> i32::MIN <= q <= i32::MAX,
    decreases l,
{
    match l {
        None => {
            assert(sub_map(l) =~= Map::<int, V>::empty());
        },
        Some(n) => {
            lemma_keys_range(n.left);
            lemma_keys_range(n.right);
            assert forall|q: int| sub_map(l).dom().contains(q) implies i32::MIN <= q
                <= i32::MAX by {
                if sub_map(n.left).dom().contains(q) {
                } else if sub_map(n.right).dom().contains(q) {
                } else {
                    assert(q == n.key as int);
                }
            }
        },
    }
}


/// The pairs of a subtree in symmetric (ascending-key) order.
spec fn kv_seq<V>(l: Link<V>) -> Seq<(i32, V)>
    decreases l,
{
    match l {
        None => Seq::empty(),
        Some(n) => kv_seq(n.left) + seq![(n.key, n.val)] + kv_seq(n.right),
    }
}

/// The in-order pair sequence of a well-formed subtree lists exactly
/// the map's pairs, in strictly ascending key order.
proof fn lemma_kv<V>(l: Link<V>)
    requires
        sub_wf(l),
    ensures
        kv_seq(l).len() == sub_cnt(l),
        forall|i: int|
            0 <= i < kv_seq(l).len() ==> sub_map(l).dom().contains(
                (#[trigger] kv_seq(l)[i]).0 as int,
            ) && sub_map(l)[kv_seq(l)[i].0 as int] == kv_seq(l)[i].1,
        forall|i: int, j: int|
            0 <= i < j < kv_seq(l).len() ==> (#[trigger] kv_seq(l)[i]).0 < (#[trigger] kv_seq(
                l,
            )[j]).0,
        forall|q: int|
            sub_map(l).dom().contains(q) ==> exists|i: int|
                0 <= i < kv_seq(l).len() && (#[trigger] kv_seq(l)[i]).0 as int == q,
    decreases l,
{
    match l {
        None => {
            assert(sub_map(l) =~= Map::<int, V>::empty());
        },
        Some(n) => {
            lemma_kv(n.left);
            lemma_kv(n.right);
            let s = kv_seq(l);
            let a = kv_seq(n.left);
            let b = kv_seq(n.right);
            let ln = a.len() as int;
            assert(s == a + seq![(n.key, n.val)] + b);
            assert forall|i: int| 0 <= i < s.len() implies sub_map(l).dom().contains(
                (#[trigger] s[i]).0 as int,
            ) && sub_map(l)[s[i].0 as int] == s[i].1 by {
                if i < ln {
                    assert(s[i] == a[i]);
                    assert(sub_map(n.left).dom().contains(a[i].0 as int));
                    assert(!sub_map(n.right).dom().contains(a[i].0 as int));
                    assert(a[i].0 != n.key);
                } else if i == ln {
                    assert(s[i] == (n.key, n.val));
                } else {
                    assert(s[i] == b[i - ln - 1]);
                    assert(sub_map(n.right).dom().contains(b[i - ln - 1].0 as int));
                    assert(b[i - ln - 1].0 != n.key);
                }
            }
            assert forall|i: int, j: int| 0 <= i < j < s.len() implies (#[trigger] s[i]).0 < (
            #[trigger] s[j]).0 by {
                if j < ln {
                } else if i > ln {
                    assert(s[i] == b[i - ln - 1] && s[j] == b[j - ln - 1]);
                } else {
                    if i < ln {
                        assert(s[i] == a[i]);
                        assert(sub_map(n.left).dom().contains(a[i].0 as int));
                        assert(s[i].0 < n.key);
                    }
                    if j > ln {
                        assert(s[j] == b[j - ln - 1]);
                        assert(sub_map(n.right).dom().contains(b[j - ln - 1].0 as int));
                        assert(s[j].0 > n.key);
                    }
                }
            }
            assert forall|q: int| sub_map(l).dom().contains(q) implies exists|i: int|
                0 <= i < s.len() && (#[trigger] s[i]).0 as int == q by {
                if sub_map(n.left).dom().contains(q) {
                    let i = choose|i: int| 0 <= i < a.len() && (#[trigger] a[i]).0 as int == q;
                    assert(s[i] == a[i]);
                } else if sub_map(n.right).dom().contains(q) {
                    let i = choose|i: int| 0 <= i < b.len() && (#[trigger] b[i]).0 as int == q;
                    assert(s[i + ln + 1] == b[i]);
                } else {
                    assert(q == n.key as int);
                    assert(s[ln].0 as int == q);
                }
            }
        },
    }
}

/// The pending part of a traversal: each stack entry contributes its
/// own pair and then its right subtree, top entry first.
spec fn trav_rest<V>(s: Seq<Box<Node<V>>>) -> Seq<(i32, V)>
    decreases s.len(),
{
    if s.len() == 0 {
        Seq::empty()
    } else {
        seq![(s.last().key, s.last().val)] + kv_seq(s.last().right) + trav_rest(s.drop_last())
    }
}

/// The map written by a sequence of pairs, later pairs winning.
pub open spec fn pairs_map<V>(s: Seq<(i32, V)>) -> Map<int, V>
    decreases s.len(),
{
    if s.len() == 0 {
        Map::empty()
    } else {
        pairs_map(s.drop_last()).insert(s.last().0 as int, s.last().1)
    }
}

/// The joint map held by the bulk-build stack: each entry contributes
/// its left subtree and its own pair.
spec fn stack_map<V>(s: Seq<Box<Node<V>>>) -> Map<int, V>
    decreases s.len(),
{
    if s.len() == 0 {
        Map::empty()
    } else {
        stack_map(s.drop_last()).union_prefer_right(sub_map(s.last().left)).insert(
            s.last().key as int,
            s.last().val,
        )
    }
}

/// Shape of the bulk-build stack: entries hold ascending keys, each
/// entry's left subtree sits strictly between its neighbours' keys, and
/// no entry has a right child yet.
spec fn stack_ok<V>(s: Seq<Box<Node<V>>>) -> bool {
    &&& forall|i: int|
        0 <= i < s.len() ==> (#[trigger] s[i]).right is None && sub_wf(s[i].left)
    &&& forall|i: int, q: int|
        0 <= i < s.len() && #[trigger] sub_map(s[i].left).dom().contains(q) ==> q < s[i].key as int
    &&& forall|i: int, j: int| 0 <= i < j < s.len() ==> (#[trigger] s[i]).key < (#[trigger] s[j]).key
    &&& forall|i: int, q: int|
        1 <= i < s.len() && #[trigger] sub_map(s[i].left).dom().contains(q) ==> q > s[i
            - 1].key as int
}


/// Keys held by the build stack are bounded by its last entry's key,
/// and every entry's own key is in the joint map.
proof fn lemma_stack_map_facts<V>(s: Seq<Box<Node<V>>>)
    requires
        stack_ok(s),
    ensures
        forall|q: int|
            stack_map(s).dom().contains(q) ==> (s.len() > 0 && q <= s.last().key as int),
        forall|i: int| 0 <= i < s.len() ==> stack_map(s).dom().contains((#[trigger] s[i]).key as int),
    decreases s.len(),
{
    if s.len() == 0 {
        assert(stack_map(s) =~= Map::<int, V>::empty());
    } else {
        let sd = s.drop_last();
        assert(stack_ok(sd)) by {
            assert(forall|i: int| 0 <= i < sd.len() ==> sd[i] == s[i]);
        }
        lemma_stack_map_facts(sd);
        assert forall|q: int| stack_map(s).dom().contains(q) implies (s.len() > 0 && q <= s.last().key as int) by {
            if stack_map(sd).dom().contains(q) {
                if sd.len() > 0 {
                    assert(q <= sd.last().key as int);
                    assert(sd.last() == s[s.len() - 2]);
                    assert(s[s.len() - 2].key < s.last().key);
                }
            } else if sub_map(s.last().left).dom().contains(q) {
                assert(q < s.last().key as int);
            } else {
                assert(q == s.last().key as int);
            }
        }
        assert forall|i: int| 0 <= i < s.len() implies stack_map(s).dom().contains((#[trigger] s[i]).key as int) by {
            if i < s.len() - 1 {
                assert(sd[i] == s[i]);
                assert(stack_map(sd).dom().contains(s[i].key as int));
            }
        }
    }
}


/// Pending traversal entries for the borrowing walk, top entry first.
spec fn trav_rest_ref<V>(s: Seq<&Box<Node<V>>>) -> Seq<(i32, V)>
    decreases s.len(),
{
    if s.len() == 0 {
        Seq::empty()
    } else {
        seq![(s.last().key, s.last().val)] + kv_seq(s.last().right) + trav_rest_ref(s.drop_last())
    }
}

/// A well-formed subtree's map is finite with one entry per node.
proof fn lemma_cnt_map<V>(l: Link<V>)
    requires
        sub_wf(l),
    ensures
        sub_map(l).dom().finite(),
        sub_map(l).dom().len() == sub_cnt(l),
    decreases l,
{
    broadcast use vstd::set_lib::group_set_lib_default;

    match l {
        None => {
            assert(sub_map(l) =~= Map::<int, V>::empty());
        },
        Some(n) => {
            lemma_cnt_map(n.left);
            lemma_cnt_map(n.right);
            let lm = sub_map(n.left);
            let rm = sub_map(n.right);
            assert(lm.dom().disjoint(rm.dom()));
            vstd::map_lib::lemma_disjoint_union_size(lm, rm);
            assert(!lm.union_prefer_right(rm).dom().contains(n.key as int));
            assert(sub_map(l).dom() =~= lm.union_prefer_right(rm).dom().insert(n.key as int));
        },
    }
}

/// A key is in the written map exactly when some pair carries it.
proof fn lemma_set_pairs_dom<V>(s: Seq<(i32, V)>)
    ensures
        forall|q: int|
            #[trigger] pairs_map(s).dom().contains(q) <==> exists|i: int|
                0 <= i < s.len() && (#[trigger] s[i]).0 as int == q,
    decreases s.len(),
{
    if s.len() == 0 {
        assert(pairs_map(s).dom() =~= Set::<int>::empty());
    } else {
        let sd = s.drop_last();
        lemma_set_pairs_dom(sd);
        assert forall|q: int| #[trigger] pairs_map(s).dom().contains(q) implies exists|i: int|
            0 <= i < s.len() && (#[trigger] s[i]).0 as int == q by {
            if q == s.last().0 as int {
                assert(s[s.len() - 1].0 as int == q);
            } else {
                assert(pairs_map(sd).dom().contains(q));
                let i = choose|i: int| 0 <= i < sd.len() && (#[trigger] sd[i]).0 as int == q;
                assert(sd[i] == s[i]);
                assert(s[i].0 as int == q);
            }
        }
        assert forall|q: int|
            (exists|i: int|
                0 <= i < s.len() && (#[trigger] s[i]).0 as int
                    == q) implies #[trigger] pairs_map(s).dom().contains(q) by {
            let i = choose|i: int| 0 <= i < s.len() && (#[trigger] s[i]).0 as int == q;
            if i == s.len() - 1 {
                assert(q == s.last().0 as int);
            } else {
                assert(sd[i] == s[i]);
                assert(sd[i].0 as int == q);
                assert(pairs_map(sd).dom().contains(q));
            }
        }
    }
}


/// Remaining work of a traversal, used as its termination measure.
spec fn pot_rest<V>(s: Seq<Box<Node<V>>>) -> nat
    decreases s.len(),
{
    if s.len() == 0 {
        0
    } else {
        1 + 2 * sub_cnt(s.last().right) + pot_rest(s.drop_last())
    }
}

spec fn pot_rest_ref<V>(s: Seq<&Box<Node<V>>>) -> nat
    decreases s.len(),
{
    if s.len() == 0 {
        0
    } else {
        1 + 2 * sub_cnt(s.last().right) + pot_rest_ref(s.drop_last())
    }
}

/// A key type with a defined successor step; treap removal is only
/// defined for such keys.
pub trait Unit: Sized {
    spec fn unit_spec() -> Self;

    fn unit() -> (r: Self)
        ensures
            r == Self::unit_spec(),
    ;
}

impl Unit for i32 {
    open spec fn unit_spec() -> i32 {
        1
    }

    fn unit() -> (r: i32)
        ensures
            r == 1i32,
    {
        1
    }
}

impl<V> TreapMap<V> {
    #[verifier::type_invariant]
    spec fn wf(self) -> bool {
        sub_wf(self.root)
    }

    pub closed spec fn view(self) -> Map<int, V> {
        sub_map(self.root)
    }

    pub fn new() -> (s: Self)
        ensures
            s@ == Map::<int, V>::empty(),
    {
        TreapMap { root: None }
    }

    fn get_node<'a>(node: &'a Link<V>, key: i32) -> (r: Option<&'a V>)
        requires
            sub_wf(*node),
        ensures
            match r {
                None => !sub_map(*node).dom().contains(key as int),
                Some(v) => sub_map(*node).dom().contains(key as int) && *v == sub_map(*node)[key
                    as int],
            },
        decreases *node,
    {
        match node {
            None => None,
            Some(n) => {
                if key == n.key {
                    proof {
                        assert(!sub_map(n.left).dom().contains(key as int));
                        assert(!sub_map(n.right).dom().contains(key as int));
                    }
                    Some(&n.val)
                } else if key < n.key {
                    proof {
                        assert(!sub_map(n.right).dom().contains(key as int));
                    }
                    Self::get_node(&n.left, key)
                } else {
                    proof {
                        assert(!sub_map(n.left).dom().contains(key as int));
                    }
                    Self::get_node(&n.right, key)
                }
            },
        }
    }

    pub fn get(&self, key: &i32) -> (r: Option<&V>)
        ensures
            match r {
                None => !self@.dom().contains(*key as int),
                Some(v) => self@.dom().contains(*key as int) && *v == self@[*key as int],
            },
    {
        proof {
            use_type_invariant(&*self);
        }
        Self::get_node(&self.root, *key)
    }

    /// Splits a subtree into the pairs with keys below `key` and the
    /// pairs with keys at or above it, preserving the search order.
    fn split_node(node: Link<V>, key: i32) -> (r: (Link<V>, Link<V>))
        requires
            sub_wf(node),
        ensures
            sub_wf(r.0),
            sub_wf(r.1),
            sub_cnt(r.0) + sub_cnt(r.1) == sub_cnt(node),
            forall|q: int|
                #[trigger] sub_map(r.0).dom().contains(q) <==> (sub_map(node).dom().contains(q)
                    && q < key as int),
            forall|q: int|
                #[trigger] sub_map(r.1).dom().contains(q) <==> (sub_map(node).dom().contains(q)
                    && q >= key as int),
            forall|q: int|
                sub_map(r.0).dom().contains(q) ==> sub_map(r.0)[q] == sub_map(node)[q],
            forall|q: int|
                sub_map(r.1).dom().contains(q) ==> sub_map(r.1)[q] == sub_map(node)[q],
        decreases node,
    {
        match node {
            None => {
                proof {
                    assert(sub_map(None::<Box<Node<V>>>) =~= Map::<int, V>::empty());
                }
                (None, None)
            },
            Some(mut n) => {
                let ghost gn = n;
                if n.key < key {
                    let mut rnk = None;
                    core::mem::swap(&mut rnk, &mut n.right);
                    let (lt, ge) = Self::split_node(rnk, key);
                    n.right = lt;
                    proof {
                        assert forall|q: int| sub_map(n.right).dom().contains(q) implies q
                            > n.key as int by {
                            assert(sub_map(gn.right).dom().contains(q));
                        }
                        assert(sub_wf(Some(n)));
                        assert(!sub_map(gn.left).dom().contains(gn.key as int));
                        assert(!sub_map(gn.right).dom().contains(gn.key as int));
                        assert forall|q: int|
                            #[trigger] sub_map(Some(n)).dom().contains(q) <==> (sub_map(
                            Some(gn)).dom().contains(q) && q < key as int) by {
                            if sub_map(Some(n)).dom().contains(q) {
                                if sub_map(gn.left).dom().contains(q) {
                                    assert(q < gn.key as int);
                                } else if sub_map(n.right).dom().contains(q) {
                                    assert(sub_map(gn.right).dom().contains(q) && q < key as int);
                                } else {
                                    assert(q == gn.key as int);
                                }
                            }
                            if sub_map(Some(gn)).dom().contains(q) && q < key as int {
                                if sub_map(gn.left).dom().contains(q) {
                                } else if sub_map(gn.right).dom().contains(q) {
                                    assert(sub_map(n.right).dom().contains(q));
                                } else {
                                    assert(q == gn.key as int);
                                }
                            }
                        }
                        assert forall|q: int|
                            #[trigger] sub_map(ge).dom().contains(q) <==> (sub_map(
                            Some(gn)).dom().contains(q) && q >= key as int) by {
                            if sub_map(ge).dom().contains(q) {
                                assert(sub_map(gn.right).dom().contains(q));
                            }
                            if sub_map(Some(gn)).dom().contains(q) && q >= key as int {
                                if sub_map(gn.left).dom().contains(q) {
                                    assert(q < gn.key as int);
                                    assert(false);
                                } else if sub_map(gn.right).dom().contains(q) {
                                } else {
                                    assert(q == gn.key as int);
                                    assert(false);
                                }
                            }
                        }
                        assert forall|q: int| sub_map(Some(n)).dom().contains(q) implies sub_map(
                            Some(n))[q] == sub_map(Some(gn))[q] by {
                            if q == gn.key as int {
                            } else if sub_map(n.right).dom().contains(q) {
                                assert(sub_map(Some(n))[q] == sub_map(n.right)[q]);
                                assert(sub_map(gn.right).dom().contains(q));
                                assert(sub_map(Some(gn))[q] == sub_map(gn.right)[q]);
                            } else {
                                assert(sub_map(gn.left).dom().contains(q));
                                assert(!sub_map(gn.right).dom().contains(q));
                                assert(sub_map(Some(n))[q] == sub_map(gn.left)[q]);
                                assert(sub_map(Some(gn))[q] == sub_map(gn.left)[q]);
                            }
                        }
                        assert forall|q: int| sub_map(ge).dom().contains(q) implies sub_map(ge)[q]
                            == sub_map(Some(gn))[q] by {
                            assert(sub_map(gn.right).dom().contains(q));
                            assert(sub_map(ge)[q] == sub_map(gn.right)[q]);
                            assert(sub_map(Some(gn))[q] == sub_map(gn.right)[q]);
                        }
                    }
                    (Some(n), ge)
                } else {
                    let mut lnk = None;
                    core::mem::swap(&mut lnk, &mut n.left);
                    let (lt, ge) = Self::split_node(lnk, key);
                    n.left = ge;
                    proof {
                        assert forall|q: int| sub_map(n.left).dom().contains(q) implies q
                            < n.key as int by {
                            assert(sub_map(gn.left).dom().contains(q));
                        }
                        assert(sub_wf(Some(n)));
                        assert(!sub_map(gn.right).dom().contains(gn.key as int));
                        assert(!sub_map(gn.left).dom().contains(gn.key as int));
                        assert forall|q: int|
                            #[trigger] sub_map(lt).dom().contains(q) <==> (sub_map(
                            Some(gn)).dom().contains(q) && q < key as int) by {
                            if sub_map(lt).dom().contains(q) {
                                assert(sub_map(gn.left).dom().contains(q));
                            }
                            if sub_map(Some(gn)).dom().contains(q) && q < key as int {
                                if sub_map(gn.left).dom().contains(q) {
                                    assert(sub_map(lt).dom().contains(q));
                                } else if sub_map(gn.right).dom().contains(q) {
                                    assert(q > gn.key as int && gn.key >= key);
                                    assert(false);
                                } else {
                                    assert(q == gn.key as int);
                                    assert(false);
                                }
                            }
                        }
                        assert forall|q: int|
                            #[trigger] sub_map(Some(n)).dom().contains(q) <==> (sub_map(
                            Some(gn)).dom().contains(q) && q >= key as int) by {
                            if sub_map(Some(n)).dom().contains(q) {
                                if sub_map(n.left).dom().contains(q) {
                                    assert(sub_map(gn.left).dom().contains(q) && q >= key as int);
                                } else if sub_map(gn.right).dom().contains(q) {
                                    assert(q > gn.key as int);
                                } else {
                                    assert(q == gn.key as int);
                                }
                            }
                            if sub_map(Some(gn)).dom().contains(q) && q >= key as int {
                                if sub_map(gn.left).dom().contains(q) {
                                    assert(sub_map(n.left).dom().contains(q));
                                } else if sub_map(gn.right).dom().contains(q) {
                                } else {
                                    assert(q == gn.key as int);
                                }
                            }
                        }
                        assert forall|q: int| sub_map(lt).dom().contains(q) implies sub_map(lt)[q]
                            == sub_map(Some(gn))[q] by {
                            assert(sub_map(gn.left).dom().contains(q));
                            assert(!sub_map(gn.right).dom().contains(q));
                            assert(sub_map(lt)[q] == sub_map(gn.left)[q]);
                            assert(sub_map(Some(gn))[q] == sub_map(gn.left)[q]);
                        }
                        assert forall|q: int| sub_map(Some(n)).dom().contains(q) implies sub_map(
                            Some(n))[q] == sub_map(Some(gn))[q] by {
                            if q == gn.key as int {
                            } else if sub_map(gn.right).dom().contains(q) {
                                assert(sub_map(Some(n))[q] == sub_map(gn.right)[q]);
                                assert(sub_map(Some(gn))[q] == sub_map(gn.right)[q]);
                            } else {
                                assert(sub_map(n.left).dom().contains(q));
                                assert(sub_map(gn.left).dom().contains(q));
                                assert(sub_map(Some(n))[q] == sub_map(n.left)[q]);
                                assert(sub_map(n.left)[q] == sub_map(gn.left)[q]);
                                assert(sub_map(Some(gn))[q] == sub_map(gn.left)[q]);
                            }
                        }
                    }
                    (lt, Some(n))
                }
            },
        }
    }

    /// Joins two subtrees whose key ranges are fully ordered, choosing
    /// the higher-priority root at each step.
    fn merge_node(a: Link<V>, b: Link<V>) -> (r: Link<V>)
        requires
            sub_wf(a),
            sub_wf(b),
            forall|qa: int, qb: int|
                sub_map(a).dom().contains(qa) && sub_map(b).dom().contains(qb) ==> qa < qb,
        ensures
            sub_wf(r),
            sub_map(r) == sub_map(a).union_prefer_right(sub_map(b)),
            sub_cnt(r) == sub_cnt(a) + sub_cnt(b),
        decreases sub_cnt(a) + sub_cnt(b),
    {
        if a.is_none() || b.is_none() {
            proof {
                assert(sub_map(a).union_prefer_right(sub_map(b)) =~= if a is Some {
                    sub_map(a)
                } else {
                    sub_map(b)
                });
            }
            if a.is_some() {
                a
            } else {
                b
            }
        } else {
            let mut x = a.unwrap();
            let mut y = b.unwrap();
            proof {
                assert(sub_map(Some(x)).dom().contains(x.key as int));
                assert(sub_map(Some(y)).dom().contains(y.key as int));
            }
            if x.pri > y.pri {
                let ghost gx = x;
                let mut rnk = None;
                core::mem::swap(&mut rnk, &mut x.right);
                proof {
                    assert forall|qa: int, qb: int|
                        sub_map(gx.right).dom().contains(qa) && sub_map(Some(y)).dom().contains(
                            qb,
                        ) implies qa < qb by {
                        assert(sub_map(Some(gx)).dom().contains(qa));
                    }
                }
                let sub = Self::merge_node(rnk, Some(y));
                x.right = sub;
                proof {
                    assert forall|q: int| sub_map(x.right).dom().contains(q) implies q
                        > x.key as int by {
                        if sub_map(gx.right).dom().contains(q) {
                        } else {
                            assert(sub_map(Some(y)).dom().contains(q));
                            assert(sub_map(Some(gx)).dom().contains(x.key as int));
                        }
                    }
                    assert(sub_wf(Some(x)));
                    assert(sub_map(Some(x)) =~= sub_map(Some(gx)).union_prefer_right(
                        sub_map(Some(y)),
                    ));
                }
                Some(x)
            } else {
                let ghost gy = y;
                let mut lnk = None;
                core::mem::swap(&mut lnk, &mut y.left);
                proof {
                    assert forall|qa: int, qb: int|
                        sub_map(Some(x)).dom().contains(qa) && sub_map(gy.left).dom().contains(
                            qb,
                        ) implies qa < qb by {
                        assert(sub_map(Some(gy)).dom().contains(qb));
                    }
                }
                let sub = Self::merge_node(Some(x), lnk);
                y.left = sub;
                proof {
                    assert forall|q: int| sub_map(y.left).dom().contains(q) implies q
                        < y.key as int by {
                        if sub_map(gy.left).dom().contains(q) {
                        } else {
                            assert(sub_map(Some(x)).dom().contains(q));
                            assert(sub_map(Some(gy)).dom().contains(y.key as int));
                        }
                    }
                    assert(sub_wf(Some(y)));
                    assert(sub_map(Some(y)) =~= sub_map(Some(x)).union_prefer_right(
                        sub_map(Some(gy)),
                    ));
                }
                Some(y)
            }
        }
    }

    /// Inserts the pair if the key is absent and says whether it did;
    /// a present key is rejected, not overwritten.
    #[verifier::rlimit(50)]
    pub fn insert(&mut self, key: i32, val: V) -> (r: bool)
        ensures
            r == !old(self)@.dom().contains(key as int),
            final(self)@ == if old(self)@.dom().contains(key as int) {
                old(self)@
            } else {
                old(self)@.insert(key as int, val)
            },
    {
        proof {
            use_type_invariant(&*self);
        }
        if self.get(&key).is_some() {
            return false;
        }
        let mut root = None;
        core::mem::swap(&mut root, &mut self.root);
        let ghost gmap = sub_map(root);
        let (lt, ge) = Self::split_node(root, key);
        let node = Box::new(
            Node { key, val, pri: crate::rng::random_u64(), left: None, right: None },
        );
        proof {
            assert(sub_map(node.left) =~= Map::<int, V>::empty());
            assert(sub_map(Some(node)) =~= Map::<int, V>::empty().insert(key as int, val));
        }
        proof {
            assert forall|qa: int, qb: int|
                sub_map(lt).dom().contains(qa) && sub_map(Some(node)).dom().contains(
                    qb,
                ) implies qa < qb by {
                assert(qa < key as int);
                assert(qb == key as int);
            }
        }
        let merged = Self::merge_node(lt, Some(node));
        proof {
            assert forall|qa: int, qb: int|
                sub_map(merged).dom().contains(qa) && sub_map(ge).dom().contains(
                    qb,
                ) implies qa < qb by {
                assert(qb >= key as int && !gmap.dom().contains(key as int) && qb != key as int);
                if sub_map(lt).dom().contains(qa) {
                } else {
                    assert(qa == key as int);
                }
            }
        }
        let merged2 = Self::merge_node(merged, ge);
        proof {
            assert(sub_map(merged2) =~= gmap.insert(key as int, val));
        }
        self.root = merged2;
        true
    }

    /// Removes the key if present; returns whether it was present.
    ///
    /// The key range `[key, successor)` is split out and dropped, so the
    /// largest representable key is handled without a successor.
    pub fn remove(&mut self, key: &i32) -> (r: bool)
        ensures
            r == old(self)@.dom().contains(*key as int),
            final(self)@ == old(self)@.remove(*key as int),
    {
        proof {
            use_type_invariant(&*self);
        }
        let k = *key;
        if self.get(key).is_none() {
            proof {
                assert(self@ =~= self@.remove(k as int));
            }
            return false;
        }
        let mut root = None;
        core::mem::swap(&mut root, &mut self.root);
        let ghost gmap = sub_map(root);
        let (l, rest) = Self::split_node(root, k);
        if k < i32::MAX {
            let step = i32::unit();
            let (_mid, r2) = Self::split_node(rest, k + step);
            proof {
                assert forall|qa: int, qb: int|
                    sub_map(l).dom().contains(qa) && sub_map(r2).dom().contains(
                        qb,
                    ) implies qa < qb by {
                    assert(qa < k as int);
                    assert(qb >= k as int + 1);
                }
            }
            let merged = Self::merge_node(l, r2);
            proof {
                assert(sub_map(merged) =~= gmap.remove(k as int));
            }
            self.root = merged;
        } else {
            proof {
                lemma_keys_range(root);
                assert(sub_map(l) =~= gmap.remove(k as int));
            }
            self.root = l;
        }
        true
    }

    /// Attaches the assembled subtree as the right child of popped
    /// spine entries, while the stack top's priority is below `pri` (or
    /// unconditionally, for the final collapse).
    fn pop_spine(stk: &mut Vec<Box<Node<V>>>, acc: Link<V>, pri: u64, all: bool) -> (r: Link<V>)
        requires
            stack_ok(old(stk)@),
            sub_wf(acc),
            forall|q: int|
                sub_map(acc).dom().contains(q) ==> (old(stk)@.len() > 0 ==> q > old(stk)@.last().key as int),
        ensures
            stack_ok(final(stk)@),
            sub_wf(r),
            stack_map(final(stk)@).union_prefer_right(sub_map(r)) == stack_map(old(stk)@).union_prefer_right(sub_map(acc)),
            forall|q: int|
                sub_map(r).dom().contains(q) ==> (final(stk)@.len() > 0 ==> q > final(stk)@.last().key as int),
            all ==> final(stk)@.len() == 0,
        decreases old(stk)@.len(),
    {
        let stop = if stk.len() == 0 {
            true
        } else if all {
            false
        } else {
            let tp = stk[stk.len() - 1].pri;
            !(tp < pri)
        };
        if stop {
            return acc;
        }
        let ghost gs = stk@;
        proof {
            lemma_stack_map_facts(gs);
        }
        let mut t = stk.pop().unwrap();
        let ghost gt = t;
        let ghost ga = sub_map(acc);
        t.right = acc;
        proof {
            assert(gt == gs.last());
            assert(stk@ =~= gs.drop_last());
            assert(stack_ok(stk@));
            assert(sub_wf(Some(t))) by {
                assert(sub_wf(gt.left));
            }
            lemma_stack_map_facts(stk@);
            assert(stack_map(stk@).union_prefer_right(sub_map(Some(t))) =~= stack_map(
                gs,
            ).union_prefer_right(ga)) by {
                assert(sub_map(Some(t)) =~= sub_map(gt.left).union_prefer_right(ga).insert(
                    gt.key as int,
                    gt.val,
                ));
                assert(stack_map(gs) == stack_map(gs.drop_last()).union_prefer_right(
                    sub_map(gt.left),
                ).insert(gt.key as int, gt.val));
                assert(forall|q: int|
                    ga.dom().contains(q) ==> q > gt.key as int && !stack_map(
                        gs,
                    ).dom().contains(q));
            }
            assert forall|q: int| sub_map(Some(t)).dom().contains(q) implies (stk@.len() > 0
                ==> q > stk@.last().key as int) by {
                if stk@.len() > 0 {
                    if sub_map(gt.left).dom().contains(q) {
                    } else if ga.dom().contains(q) {
                        assert(q > gt.key as int);
                        assert(gs[gs.len() - 2].key < gt.key);
                    } else {
                        assert(q == gt.key as int);
                        assert(gs[gs.len() - 2].key < gt.key);
                    }
                }
            }
        }
        Self::pop_spine(stk, Some(t), pri, all)
    }

    /// One step of the bulk build: pops the spine entries whose priority
    /// is below `pri`, hangs them as the new node's left subtree, and
    /// pushes the new node.
    fn push_pair(stk: &mut Vec<Box<Node<V>>>, k: i32, val: V, pri: u64)
        requires
            stack_ok(old(stk)@),
            forall|q: int| stack_map(old(stk)@).dom().contains(q) ==> q < k as int,
        ensures
            stack_ok(final(stk)@),
            stack_map(final(stk)@) == stack_map(old(stk)@).insert(k as int, val),
            final(stk)@.len() > 0,
    {
        let ghost p0 = stack_map(stk@);
        proof {
            lemma_stack_map_facts(stk@);
            assert(sub_map(None::<Box<Node<V>>>) =~= Map::<int, V>::empty());
            assert(p0.union_prefer_right(sub_map(None::<Box<Node<V>>>)) =~= p0);
        }
        let acc = Self::pop_spine(stk, None, pri, false);
        proof {
            lemma_stack_map_facts(stk@);
            assert forall|q: int| sub_map(acc).dom().contains(q) implies q < k as int by {
                assert(stack_map(stk@).union_prefer_right(sub_map(acc)).dom().contains(q));
                assert(p0.dom().contains(q));
            }
            assert forall|q: int| stack_map(stk@).dom().contains(q) implies p0.dom().contains(
                q,
            ) by {
                assert(stack_map(stk@).union_prefer_right(sub_map(acc)).dom().contains(q));
            }
        }
        let node = Box::new(Node { key: k, val, pri, left: acc, right: None });
        let ghost gs = stk@;
        stk.push(node);
        proof {
            assert(stk@.drop_last() =~= gs);
            assert(stk@.last() == node);
            assert(stack_ok(stk@)) by {
                assert forall|i: int, j: int| 0 <= i < j < stk@.len() implies (
                #[trigger] stk@[i]).key < (#[trigger] stk@[j]).key by {
                    if j == stk@.len() - 1 {
                        assert(stack_map(gs).dom().contains(gs[i].key as int));
                        assert(p0.dom().contains(gs[i].key as int));
                    }
                }
                assert forall|i: int, q: int|
                    1 <= i < stk@.len() && #[trigger] sub_map(stk@[i].left).dom().contains(
                        q,
                    ) implies q > stk@[i - 1].key as int by {
                    if i == stk@.len() - 1 {
                        assert(sub_map(acc).dom().contains(q));
                        assert(gs.len() > 0 ==> q > gs.last().key as int);
                    }
                }
            }
            assert(stack_map(stk@) == stack_map(gs).union_prefer_right(sub_map(acc)).insert(
                k as int,
                val,
            ));
            assert(stack_map(stk@) =~= p0.insert(k as int, val));
        }
    }

    /// Builds a treap from pairs sorted by strictly ascending key, in
    /// one left-to-right pass over a stack holding the right spine.
    #[verifier::spinoff_prover]
    #[verifier::rlimit(50)]
    pub fn from(v: Vec<(i32, V)>) -> (s: Self)
        requires
            forall|i: int, j: int|
                0 <= i < j < v@.len() ==> (#[trigger] v@[i]).0 < (#[trigger] v@[j]).0,
        ensures
            s@ == pairs_map(v@),
    {
        let ghost gv = v@;
        let mut v = v;
        let mut stk: Vec<Box<Node<V>>> = Vec::new();
        proof {
            assert(gv.take(0) =~= Seq::<(i32, V)>::empty());
            assert(stack_map(stk@) =~= pairs_map(gv.take(0)));
            assert(stack_map(stk@).dom() =~= Set::<int>::empty());
            assert(v@ =~= gv.skip(0));
        }
        while v.len() > 0
            invariant
                forall|i: int, j: int|
                    0 <= i < j < gv.len() ==> (#[trigger] gv[i]).0 < (#[trigger] gv[j]).0,
                v@.len() <= gv.len(),
                v@ == gv.skip(gv.len() - v@.len()),
                stack_ok(stk@),
                stack_map(stk@) == pairs_map(gv.take(gv.len() - v@.len())),
                forall|q: int|
                    stack_map(stk@).dom().contains(q) ==> (v@.len() > 0 ==> q < (v@[0]).0 as int),
            decreases v@.len(),
        {
            let ghost done = gv.len() - v@.len();
            let ghost prefix = gv.take(done as int);
            proof {
                assert(gv.skip(done as int)[0] == gv[done as int]);
            }
            let (k, val) = v.remove(0);
            proof {
                assert((k, val) == gv[done as int]);
                assert(v@ =~= gv.skip(done as int + 1));
            }
            let pri = crate::rng::random_u64();
            Self::push_pair(&mut stk, k, val, pri);
            proof {
                assert(gv.take(done as int + 1).drop_last() =~= prefix);
                assert(gv.take(done as int + 1).last() == gv[done as int]);
                assert(stack_map(stk@) =~= pairs_map(gv.take(done as int + 1)));
                if v@.len() > 0 {
                    assert(v@[0] == gv[done as int + 1]);
                    assert(gv[done as int].0 < gv[done as int + 1].0);
                    assert forall|q: int| stack_map(stk@).dom().contains(q) implies q < (
                    v@[0]).0 as int by {
                        if q != k as int {
                            assert(pairs_map(prefix).dom().contains(q));
                        }
                    }
                }
            }
        }
        proof {
            assert(gv.take(gv.len() as int) =~= gv);
        }
        let ghost pre_stk = stk@;
        proof {
            assert(sub_map(None::<Box<Node<V>>>) =~= Map::<int, V>::empty());
        }
        let root = Self::pop_spine(&mut stk, None, 0, true);
        proof {
            assert(stk@.len() == 0);
            assert(stack_map(stk@) =~= Map::<int, V>::empty());
            assert(stack_map(pre_stk).union_prefer_right(Map::<int, V>::empty()) =~= stack_map(
                pre_stk,
            ));
            assert(Map::<int, V>::empty().union_prefer_right(sub_map(root)) =~= sub_map(root));
            assert(sub_map(root) =~= pairs_map(gv));
        }
        TreapMap { root }
    }

    /// Consumes the map, yielding all pairs in ascending key order via
    /// an explicit pending-node stack, never recursion.
    #[verifier::spinoff_prover]
    pub fn into_iter(self) -> (r: Vec<(i32, V)>)
        ensures
            r@.len() == self@.len(),
            forall|i: int|
                0 <= i < r@.len() ==> self@.dom().contains((#[trigger] r@[i]).0 as int) && r@[i].1
                    == self@[r@[i].0 as int],
            forall|i: int, j: int|
                0 <= i < j < r@.len() ==> (#[trigger] r@[i]).0 < (#[trigger] r@[j]).0,
            forall|q: int|
                self@.dom().contains(q) ==> exists|i: int|
                    0 <= i < r@.len() && (#[trigger] r@[i]).0 as int == q,
    {
        proof {
            use_type_invariant(&self);
        }
        let TreapMap { root } = self;
        let ghost groot = root;
        proof {
            lemma_kv(groot);
            lemma_cnt_map(groot);
        }
        let mut out: Vec<(i32, V)> = Vec::new();
        let mut stack: Vec<Box<Node<V>>> = Vec::new();
        let mut cur: Link<V> = root;
        proof {
            assert(out@ + kv_seq(cur) + trav_rest(stack@) =~= kv_seq(groot));
        }
        while cur.is_some() || stack.len() > 0
            invariant
                out@ + kv_seq(cur) + trav_rest(stack@) == kv_seq(groot),
            decreases 2 * sub_cnt(cur) + pot_rest(stack@),
        {
            match cur {
                Some(mut b) => {
                    let ghost gb = b;
                    let mut lf = None;
                    core::mem::swap(&mut lf, &mut b.left);
                    let ghost gs = stack@;
                    stack.push(b);
                    cur = lf;
                    proof {
                        assert(stack@.last() == b && stack@.drop_last() =~= gs);
                        assert(trav_rest(stack@) == seq![(gb.key, gb.val)] + kv_seq(gb.right)
                            + trav_rest(gs));
                        assert(out@ + kv_seq(cur) + trav_rest(stack@) =~= kv_seq(groot));
                        assert(pot_rest(stack@) == 1 + 2 * sub_cnt(gb.right) + pot_rest(gs));
                        assert(sub_cnt(Some(gb)) == 1 + sub_cnt(gb.left) + sub_cnt(gb.right));
                    }
                },
                None => {
                    let ghost gs = stack@;
                    let t = stack.pop().unwrap();
                    proof {
                        assert(t == gs.last() && stack@ =~= gs.drop_last());
                        assert(kv_seq(cur) =~= Seq::<(i32, V)>::empty());
                    }
                    let b = *t;
                    let Node { key, val, pri: _, left: _, right } = b;
                    out.push((key, val));
                    cur = right;
                    proof {
                        assert(out@ + kv_seq(cur) + trav_rest(stack@) =~= kv_seq(groot));
                        assert(pot_rest(gs) == 1 + 2 * sub_cnt(gs.last().right) + pot_rest(
                            stack@,
                        ));
                    }
                },
            }
        }
        proof {
            assert(kv_seq(cur) =~= Seq::<(i32, V)>::empty());
            assert(trav_rest(stack@) =~= Seq::<(i32, V)>::empty());
            assert(out@ =~= kv_seq(groot));
        }
        out
    }
}

impl<V: Copy> TreapMap<V> {
    /// Yields all pairs in ascending key order, copying the values,
    /// via the same explicit-stack in-order walk.
    #[verifier::spinoff_prover]
    pub fn iter(&self) -> (r: Vec<(i32, V)>)
        ensures
            r@.len() == self@.len(),
            forall|i: int|
                0 <= i < r@.len() ==> self@.dom().contains((#[trigger] r@[i]).0 as int) && r@[i].1
                    == self@[r@[i].0 as int],
            forall|i: int, j: int|
                0 <= i < j < r@.len() ==> (#[trigger] r@[i]).0 < (#[trigger] r@[j]).0,
            forall|q: int|
                self@.dom().contains(q) ==> exists|i: int|
                    0 <= i < r@.len() && (#[trigger] r@[i]).0 as int == q,
    {
        proof {
            use_type_invariant(&*self);
            lemma_kv(self.root);
            lemma_cnt_map(self.root);
        }
        let ghost groot = self.root;
        let mut out: Vec<(i32, V)> = Vec::new();
        let mut stack: Vec<&Box<Node<V>>> = Vec::new();
        let mut cur: &Link<V> = &self.root;
        proof {
            assert(out@ + kv_seq(*cur) + trav_rest_ref(stack@) =~= kv_seq(groot));
        }
        while cur.is_some() || stack.len() > 0
            invariant
                out@ + kv_seq(*cur) + trav_rest_ref(stack@) == kv_seq(groot),
            decreases 2 * sub_cnt(*cur) + pot_rest_ref(stack@),
        {
            match cur {
                Some(b) => {
                    let ghost gs = stack@;
                    stack.push(b);
                    cur = &b.left;
                    proof {
                        assert(stack@.last() == b && stack@.drop_last() =~= gs);
                        assert(out@ + kv_seq(*cur) + trav_rest_ref(stack@) =~= kv_seq(groot));
                        assert(pot_rest_ref(stack@) == 1 + 2 * sub_cnt(b.right) + pot_rest_ref(
                            gs,
                        ));
                        assert(sub_cnt(Some(*b)) == 1 + sub_cnt(b.left) + sub_cnt(b.right));
                    }
                },
                None => {
                    let ghost gs = stack@;
                    let t = stack.pop().unwrap();
                    proof {
                        assert(t == gs.last() && stack@ =~= gs.drop_last());
                        assert(kv_seq(*cur) =~= Seq::<(i32, V)>::empty());
                    }
                    out.push((t.key, t.val));
                    cur = &t.right;
                    proof {
                        assert(out@ + kv_seq(*cur) + trav_rest_ref(stack@) =~= kv_seq(groot));
                        assert(pot_rest_ref(gs) == 1 + 2 * sub_cnt(gs.last().right)
                            + pot_rest_ref(stack@));
                    }
                },
            }
        }
        proof {
            assert(kv_seq(*cur) =~= Seq::<(i32, V)>::empty());
            assert(trav_rest_ref(stack@) =~= Seq::<(i32, V)>::empty());
            assert(out@ =~= kv_seq(groot));
        }
        out
    }
}

/// A treap-backed ordered set of `i32` values.
pub struct TreapSet {
    map: TreapMap<()>,
}

impl TreapSet {
    pub closed spec fn view(self) -> Set<int> {
        self.map@.dom()
    }

    pub fn new() -> (s: Self)
        ensures
            s@ == Set::<int>::empty(),
    {
        let s = TreapSet { map: TreapMap::new() };
        proof {
            assert(s@ =~= Set::<int>::empty());
        }
        s
    }

    /// Builds the set from strictly ascending values.
    #[verifier::spinoff_prover]
    pub fn from(v: Vec<i32>) -> (s: Self)
        requires
            forall|i: int, j: int| 0 <= i < j < v@.len() ==> v@[i] < v@[j],
        ensures
            forall|q: int| s@.contains(q) <==> exists|i: int| 0 <= i < v@.len() && v@[i] as int == q,
    {
        let mut pairs: Vec<(i32, ())> = Vec::new();
        let mut i: usize = 0;
        while i < v.len()
            invariant
                i <= v@.len(),
                pairs@.len() == i,
                forall|j: int| 0 <= j < i ==> (#[trigger] pairs@[j]).0 == v@[j],
            decreases v@.len() - i,
        {
            let x = v[i];
            pairs.push((x, ()));
            i = i + 1;
        }
        let ghost gp = pairs@;
        let m = TreapMap::from(pairs);
        let s = TreapSet { map: m };
        proof {
            lemma_set_pairs_dom(gp);
            assert forall|q: int| s@.contains(q) implies exists|i: int|
                0 <= i < v@.len() && v@[i] as int == q by {
                let i = choose|i: int| 0 <= i < gp.len() && (#[trigger] gp[i]).0 as int == q;
                assert(v@[i] as int == q);
            }
            assert forall|q: int|
                (exists|i: int| 0 <= i < v@.len() && v@[i] as int == q) implies s@.contains(
                q,
            ) by {
                let i = choose|i: int| 0 <= i < v@.len() && v@[i] as int == q;
                assert(gp[i].0 as int == q);
                assert(pairs_map(gp).dom().contains(q));
            }
        }
        s
    }

    pub fn insert(&mut self, elem: i32)
        ensures
            final(self)@ == old(self)@.insert(elem as int),
    {
        let ghost pre = self.map@;
        self.map.insert(elem, ());
        proof {
            if pre.dom().contains(elem as int) {
                assert(final(self)@ =~= old(self)@.insert(elem as int));
            } else {
                assert(final(self)@ =~= old(self)@.insert(elem as int));
            }
        }
    }

    pub fn get(&self, elem: &i32) -> (r: Option<&()>)
        ensures
            r is Some <==> self@.contains(*elem as int),
    {
        self.map.get(elem)
    }

    pub fn remove(&mut self, elem: &i32) -> (r: bool)
        ensures
            r == old(self)@.contains(*elem as int),
            final(self)@ == old(self)@.remove(*elem as int),
    {
        let r = self.map.remove(elem);
        proof {
            assert(final(self)@ =~= old(self)@.remove(*elem as int));
        }
        r
    }

    /// The values in ascending order.
    #[verifier::spinoff_prover]
    pub fn iter(&self) -> (r: Vec<i32>)
        ensures
            forall|i: int| 0 <= i < r@.len() ==> self@.contains((#[trigger] r@[i]) as int),
            forall|i: int, j: int| 0 <= i < j < r@.len() ==> r@[i] < r@[j],
            forall|q: int| self@.contains(q) ==> exists|i: int| 0 <= i < r@.len() && r@[i] as int == q,
    {
        let pairs = self.map.iter();
        let ghost gp = pairs@;
        let mut out: Vec<i32> = Vec::new();
        let mut i: usize = 0;
        while i < pairs.len()
            invariant
                i <= gp.len(),
                pairs@ == gp,
                out@.len() == i,
                forall|j: int| 0 <= j < i ==> out@[j] == (#[trigger] gp[j]).0,
            decreases gp.len() - i,
        {
            let p = pairs[i];
            out.push(p.0);
            i = i + 1;
        }
        proof {
            assert forall|i: int| 0 <= i < out@.len() implies self@.contains(
                (#[trigger] out@[i]) as int,
            ) by {
                assert(out@[i] == gp[i].0);
            }
            assert forall|i: int, j: int| 0 <= i < j < out@.len() implies out@[i] < out@[j] by {
                assert(out@[i] == gp[i].0 && out@[j] == gp[j].0);
            }
            assert forall|q: int| self@.contains(q) implies exists|i: int|
                0 <= i < out@.len() && out@[i] as int == q by {
                let i = choose|i: int| 0 <= i < gp.len() && (#[trigger] gp[i]).0 as int == q;
                assert(out@[i] as int == q);
            }
        }
        out
    }

    /// Consumes the set, yielding the values in ascending order.
    #[verifier::spinoff_prover]
    pub fn into_iter(self) -> (r: Vec<i32>)
        ensures
            forall|i: int| 0 <= i < r@.len() ==> self@.contains((#[trigger] r@[i]) as int),
            forall|i: int, j: int| 0 <= i < j < r@.len() ==> r@[i] < r@[j],
            forall|q: int| self@.contains(q) ==> exists|i: int| 0 <= i < r@.len() && r@[i] as int == q,
    {
        let TreapSet { map } = self;
        let ghost gm = map@;
        let pairs = map.into_iter();
        let ghost gp = pairs@;
        let mut out: Vec<i32> = Vec::new();
        let mut i: usize = 0;
        while i < pairs.len()
            invariant
                i <= gp.len(),
                pairs@ == gp,
                out@.len() == i,
                forall|j: int| 0 <= j < i ==> out@[j] == (#[trigger] gp[j]).0,
            decreases gp.len() - i,
        {
            let p = pairs[i];
            out.push(p.0);
            i = i + 1;
        }
        proof {
            assert forall|i: int| 0 <= i < out@.len() implies self@.contains(
                (#[trigger] out@[i]) as int,
            ) by {
                assert(out@[i] == gp[i].0);
            }
            assert forall|i: int, j: int| 0 <= i < j < out@.len() implies out@[i] < out@[j] by {
                assert(out@[i] == gp[i].0 && out@[j] == gp[j].0);
            }
            assert forall|q: int| self@.contains(q) implies exists|i: int|
                0 <= i < out@.len() && out@[i] as int == q by {
                let i = choose|i: int| 0 <= i < gp.len() && (#[trigger] gp[i]).0 as int == q;
                assert(out@[i] as int == q);
            }
        }
        out
    }
}

} // verus!
