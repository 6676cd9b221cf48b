use vstd::prelude::*;

verus! {

/// An associative combine operator handed to the segment trees by the
/// caller.  The executable `combine` must match its own specification,
/// and implementers must prove associativity, which the range queries
/// rely on.
pub trait CombineOp<T>: Sized {
    spec fn spec_combine(&self, a: T, b: T) -> T;

    proof fn associativity(&self, a: T, b: T, c: T)
        ensures
            self.spec_combine(self.spec_combine(a, b), c) == self.spec_combine(
                a,
                self.spec_combine(b, c),
            ),
    ;

    fn combine(&self, a: &T, b: &T) -> (r: T)
        ensures
            r == self.spec_combine(*a, *b),
    ;
}

/// Addition on 64-bit integers, wrapping on overflow.
#[derive(Clone, Copy)]
pub struct AddOp;

impl CombineOp<i64> for AddOp {
    open spec fn spec_combine(&self, a: i64, b: i64) -> i64 {
        vstd::wrapping::i64_specs::wrapping_add(a, b)
    }

    proof fn associativity(&self, a: i64, b: i64, c: i64) {
        assert(self.spec_combine(self.spec_combine(a, b), c) == self.spec_combine(
            a,
            self.spec_combine(b, c),
        ));
    }

    fn combine(&self, a: &i64, b: &i64) -> (r: i64) {
        (*a).wrapping_add(*b)
    }
}

/// The larger of two 32-bit integers.
#[derive(Clone, Copy)]
pub struct MaxOp;

impl CombineOp<i32> for MaxOp {
    open spec fn spec_combine(&self, a: i32, b: i32) -> i32 {
        if a >= b {
            a
        } else {
            b
        }
    }

    proof fn associativity(&self, a: i32, b: i32, c: i32) {
    }

    fn combine(&self, a: &i32, b: &i32) -> (r: i32) {
        if *a >= *b {
            *a
        } else {
            *b
        }
    }
}

/// Combination over optional values, with absence as the identity.
pub open spec fn opt_c<T, F: CombineOp<T>>(op: F, a: Option<T>, b: Option<T>) -> Option<T> {
    match (a, b) {
        (Some(x), Some(y)) => Some(op.spec_combine(x, y)),
        (Some(x), None) => Some(x),
        (None, y) => y,
    }
}

/// The left-to-right combination of a slot range.
pub open spec fn sfold<T, F: CombineOp<T>>(op: F, s: Seq<Option<T>>, a: int, b: int) -> Option<T>
    decreases b - a,
{
    if a >= b || a < 0 || b > s.len() {
        None
    } else {
        opt_c(op, s[a], sfold(op, s, a + 1, b))
    }
}

proof fn lemma_opt_assoc<T, F: CombineOp<T>>(op: F, a: Option<T>, b: Option<T>, c: Option<T>)
    ensures
        opt_c(op, opt_c(op, a, b), c) == opt_c(op, a, opt_c(op, b, c)),
{
    if a is Some && b is Some && c is Some {
        op.associativity(a.unwrap(), b.unwrap(), c.unwrap());
    }
}

/// Splitting a fold at any interior point.
proof fn lemma_sfold_split<T, F: CombineOp<T>>(op: F, s: Seq<Option<T>>, a: int, b: int, c: int)
    requires
        0 <= a <= b <= c <= s.len(),
    ensures
        sfold(op, s, a, c) == opt_c(op, sfold(op, s, a, b), sfold(op, s, b, c)),
    decreases b - a,
{
    if a >= b {
        assert(sfold(op, s, a, b) is None);
    } else {
        lemma_sfold_split(op, s, a + 1, b, c);
        lemma_opt_assoc(op, s[a], sfold(op, s, a + 1, b), sfold(op, s, b, c));
    }
}

/// A fold over shifted positions of a larger buffer equals the fold
/// over the extracted slots.
proof fn lemma_sfold_shift<T, F: CombineOp<T>>(
    op: F,
    buf: Seq<Option<T>>,
    view: Seq<Option<T>>,
    off: int,
    a: int,
    b: int,
)
    requires
        0 <= a,
        b <= view.len(),
        off >= 0,
        off + b <= buf.len(),
        forall|i: int| a <= i < b ==> view[i] == buf[off + i],
    ensures
        sfold(op, buf, off + a, off + b) == sfold(op, view, a, b),
    decreases b - a,
{
    if a < b {
        lemma_sfold_shift(op, buf, view, off, a + 1, b);
    }
}

/// Powers of two.
spec fn is_p2(x: int) -> bool
    decreases x,
{
    if x <= 0 {
        false
    } else if x == 1 {
        true
    } else {
        x % 2 == 0 && is_p2(x / 2)
    }
}

/// An array-backed segment tree over a fixed-size range of optional
/// slots, answering range-combine queries for a caller-supplied
/// associative operator.
///
/// The view is the logical slot sequence: `insert` fills one slot and
/// `query` folds the filled slots of a half-open range.
pub struct SegTree<T: Copy, F: CombineOp<T>> {
    buf: Vec<Option<T>>,
    size: usize,
    offset: usize,
    op: F,
}

/// Heap node `idx`, covering the leaf range `[lo, hi)`, holds the fold
/// of its leaves, and so on below it.
spec fn node_ok<T: Copy, F: CombineOp<T>>(
    op: F,
    buf: Seq<Option<T>>,
    idx: int,
    lo: int,
    hi: int,
    offset: int,
) -> bool
    decreases hi - lo,
{
    if hi - lo <= 1 {
        &&& 0 <= idx < buf.len()
        &&& buf[idx] == sfold(op, buf, offset + lo, offset + hi)
    } else {
        &&& 0 <= idx && 2 * idx + 1 < buf.len()
        &&& buf[idx] == sfold(op, buf, offset + lo, offset + hi)
        &&& node_ok(op, buf, 2 * idx, lo, lo + (hi - lo) / 2, offset)
        &&& node_ok(op, buf, 2 * idx + 1, lo + (hi - lo) / 2, hi, offset)
    }
}

/// Every interior node's slot combines its two children's slots.
spec fn local_ok<T: Copy, F: CombineOp<T>>(op: F, buf: Seq<Option<T>>, offset: int) -> bool {
    forall|t: int|
        1 <= t < offset ==> buf[t] == opt_c(op, #[trigger] buf[2 * t], buf[2 * t + 1])
}

impl<T: Copy, F: CombineOp<T>> SegTree<T, F> {
    /// Well-formedness: a power-of-two leaf block holding the slots,
    /// empty padding past them, and every interior node combining its
    /// two children.  Established by the constructors and preserved by
    /// `insert`.
    pub closed spec fn wf(self) -> bool {
        &&& self.buf@.len() == 2 * self.offset
        &&& self.size <= self.offset
        &&& self.offset <= usize::MAX / 2
        &&& is_p2(self.offset as int)
        &&& forall|k: int|
            self.offset + self.size <= k < 2 * self.offset ==> self.buf@[k] is None
        &&& local_ok(self.op, self.buf@, self.offset as int)
    }

    /// The logical slots.
    pub closed spec fn view(self) -> Seq<Option<T>> {
        self.buf@.subrange(self.offset as int, self.offset + self.size)
    }

    pub closed spec fn op_spec(self) -> F {
        self.op
    }

    /// The fold of the filled slots of `[l, r)`, absence as identity.
    pub open spec fn range_fold(self, l: int, r: int) -> Option<T> {
        sfold(self.op_spec(), self@, l, r)
    }

    pub fn len(&self) -> (r: usize)
        requires
            self.wf(),
        ensures
            r == self@.len(),
    {
        self.size
    }

    /// An empty tree over `size` slots.
    pub fn new(size: usize, op: F) -> (s: Self)
        requires
            size < usize::MAX / 4,
        ensures
            s.wf(),
            s@.len() == size,
            forall|i: int| 0 <= i < size ==> s@[i] is None,
            s.op_spec() == op,
    {
        Self::cons(Vec::new(), size, op)
    }

    /// A tree over the given slots, all filled.
    pub fn from(v: Vec<T>, op: F) -> (s: Self)
        requires
            v@.len() < usize::MAX / 4,
        ensures
            s.wf(),
            s@.len() == v@.len(),
            forall|i: int| 0 <= i < v@.len() ==> s@[i] == Some(v@[i]),
            s.op_spec() == op,
    {
        let n = v.len();
        Self::cons(v, n, op)
    }

    fn cons(data: Vec<T>, size: usize, op: F) -> (s: Self)
        requires
            size < usize::MAX / 4,
            data@.len() <= size,
        ensures
            s.wf(),
            s@.len() == size,
            forall|i: int|
                0 <= i < size ==> s@[i] == (if i < data@.len() {
                    Some(data@[i])
                } else {
                    None::<T>
                }),
            s.op_spec() == op,
    {
        let mut offset: usize = 1;
        while offset <= size
            invariant
                1 <= offset <= usize::MAX / 2,
                size < usize::MAX / 4,
                is_p2(offset as int),
            decreases 2 * size - offset,
        {
            offset = offset * 2;
        }
        let mut buf: Vec<Option<T>> = Vec::new();
        let mut i: usize = 0;
        while i < 2 * offset
            invariant
                offset <= usize::MAX / 2,
                i <= 2 * offset,
                buf@.len() == i,
                forall|k: int| 0 <= k < i ==> buf@[k] is None,
            decreases 2 * offset - i,
        {
            buf.push(None);
            i = i + 1;
        }
        // place the given slots at the leaves
        let mut j: usize = 0;
        while j < data.len()
            invariant
                data@.len() <= size < offset <= usize::MAX / 2,
                buf@.len() == 2 * offset,
                j <= data@.len(),
                forall|k: int| 0 <= k < j ==> buf@[offset + k] == Some(data@[k]),
                forall|k: int|
                    (0 <= k < offset || offset + j <= k < 2 * offset) ==> buf@[k] is None,
            decreases data@.len() - j,
        {
            let d = data[j];
            buf.set(offset + j, Some(d));
            j = j + 1;
        }
        // combine bottom-up over the interior nodes
        let mut k: usize = offset;
        while k > 1
            invariant
                1 <= k <= offset <= usize::MAX / 2,
                buf@.len() == 2 * offset,
                forall|t: int|
                    k <= t < offset ==> buf@[t] == opt_c(op, #[trigger] buf@[2 * t], buf@[2 * t
                        + 1]),
                forall|t: int| offset <= t < 2 * offset ==> buf@[t] == (if offset <= t
                    < offset + data@.len() {
                    Some(data@[t - offset])
                } else {
                    None::<T>
                }),
            decreases k,
        {
            k = k - 1;
            let a = buf[2 * k];
            let b = buf[2 * k + 1];
            let c = match (a, b) {
                (Some(x), Some(y)) => Some(op.combine(&x, &y)),
                (Some(x), None) => Some(x),
                (None, y) => y,
            };
            buf.set(k, c);
            proof {
                assert forall|t: int|
                    k <= t < offset implies buf@[t] == opt_c(op, #[trigger] buf@[2 * t], buf@[2
                    * t + 1]) by {
                    assert(2 * t > t && 2 * t + 1 > t);
                }
            }
        }
        let s = SegTree { buf, size, offset, op };
        proof {
            assert(s@.len() == size);
            assert forall|i2: int| 0 <= i2 < size implies s@[i2] == (if i2 < data@.len() {
                Some(data@[i2])
            } else {
                None::<T>
            }) by {
                assert(s@[i2] == s.buf@[offset + i2]);
            }
        }
        s
    }

    /// Fills slot `idx`, then refreshes the combines on the path to the
    /// root.
    pub fn insert(&mut self, idx: usize, val: T)
        requires
            old(self).wf(),
            idx < old(self)@.len(),
        ensures
            final(self).wf(),
            final(self)@ == old(self)@.update(idx as int, Some(val)),
            final(self).op_spec() == old(self).op_spec(),
    {
        let ghost pre = *self;
        let offset = self.offset;
        let mut buf: Vec<Option<T>> = Vec::new();
        core::mem::swap(&mut buf, &mut self.buf);
        let mut i = offset + idx;
        buf.set(i, Some(val));
        proof {
            assert forall|t: int|
                1 <= t < offset && (!anc(t, i as int) || t == i as int) implies buf@[t] == opt_c(
                self.op,
                #[trigger] buf@[2 * t],
                buf@[2 * t + 1],
            ) by {
                assert(t != i as int);
                assert(buf@[t] == pre.buf@[t]);
                assert(buf@[2 * t] == pre.buf@[2 * t] && buf@[2 * t + 1] == pre.buf@[2 * t + 1])
                    by {
                    if 2 * t == i as int || 2 * t + 1 == i as int {
                        lemma_anc_parent(t, i as int);
                    }
                }
            }
            assert(buf@.subrange(offset as int, offset + self.size) =~= pre@.update(
                idx as int,
                Some(val),
            ));
        }
        while i > 1
            invariant
                buf@.len() == 2 * offset,
                1 <= i < 2 * offset,
                1 <= offset <= usize::MAX / 2,
                self.size <= offset,
                self.offset == offset,
                forall|t: int|
                    1 <= t < offset && (!anc(t, i as int) || t == i as int) ==> buf@[t] == opt_c(
                        self.op,
                        #[trigger] buf@[2 * t],
                        buf@[2 * t + 1],
                    ),
                forall|k: int|
                    offset + self.size <= k < 2 * offset ==> buf@[k] is None,
                buf@.subrange(offset as int, offset + self.size) == pre@.update(
                    idx as int,
                    Some(val),
                ),
            decreases i,
        {
            let par = i / 2;
            let a = buf[2 * par];
            let b = buf[2 * par + 1];
            let c = match (a, b) {
                (Some(x), Some(y)) => Some(self.op.combine(&x, &y)),
                (Some(x), None) => Some(x),
                (None, y) => y,
            };
            let ghost gb = buf@;
            buf.set(par, c);
            proof {
                assert forall|t: int|
                    1 <= t < offset && (!anc(t, par as int) || t == par as int) implies buf@[t]
                    == opt_c(self.op, #[trigger] buf@[2 * t], buf@[2 * t + 1]) by {
                    if t == par as int {
                        assert(buf@[2 * t] == gb[2 * t] && buf@[2 * t + 1] == gb[2 * t + 1]);
                    } else {
                        assert(!anc(t, par as int));
                        assert(!anc(t, i as int) || t == i as int) by {
                            if anc(t, i as int) && t != i as int {
                                assert(anc(t, par as int));
                            }
                        }
                        assert(buf@[t] == gb[t]);
                        assert(buf@[2 * t] == gb[2 * t] && buf@[2 * t + 1] == gb[2 * t + 1]) by {
                            if 2 * t == par as int || 2 * t + 1 == par as int {
                                lemma_anc_parent(t, par as int);
                            }
                        }
                    }
                }
                assert(buf@.subrange(offset as int, offset + self.size) =~= gb.subrange(
                    offset as int,
                    offset + self.size,
                ));
            }
            i = par;
        }
        self.buf = buf;
        proof {
            assert(local_ok(self.op, self.buf@, offset as int)) by {
                assert forall|t: int| 1 <= t < offset implies self.buf@[t] == opt_c(
                    self.op,
                    #[trigger] self.buf@[2 * t],
                    self.buf@[2 * t + 1],
                ) by {
                    assert(!anc(t, 1) || t == 1);
                }
            }
            assert(final(self)@ =~= old(self)@.update(idx as int, Some(val)));
        }
    }

    fn query_node(&self, idx: usize, lo: usize, hi: usize, l: usize, r: usize) -> (res: Option<T>)
        requires
            self.buf@.len() == 2 * self.offset,
            self.offset <= usize::MAX / 2,
            node_ok(self.op, self.buf@, idx as int, lo as int, hi as int, self.offset as int),
            lo < hi <= self.offset,
            l < r,
            r <= self.offset,
        ensures
            res == sfold(
                self.op,
                self.buf@,
                self.offset + (if l > lo {
                    l as int
                } else {
                    lo as int
                }),
                self.offset + (if r < hi {
                    r as int
                } else {
                    hi as int
                }),
            ),
        decreases hi - lo,
    {
        let a = if l > lo {
            l
        } else {
            lo
        };
        let b = if r < hi {
            r
        } else {
            hi
        };
        if a >= b {
            return None;
        }
        if l <= lo && hi <= r {
            proof {
                assert(a == lo && b == hi);
            }
            return self.buf[idx];
        }
        let mid = lo + (hi - lo) / 2;
        proof {
            assert(hi - lo >= 2);
            assert(lo < mid < hi);
        }
        let left = self.query_node(2 * idx, lo, mid, l, r);
        let right = self.query_node(2 * idx + 1, mid, hi, l, r);
        let ghost am = if l > lo {
            l as int
        } else {
            lo as int
        };
        let ghost m1 = if (r as int) < (mid as int) {
            r as int
        } else {
            mid as int
        };
        let ghost m2 = if (l as int) > (mid as int) {
            l as int
        } else {
            mid as int
        };
        let ghost bm = if r < hi {
            r as int
        } else {
            hi as int
        };
        let res = match (left, right) {
            (Some(x), Some(y)) => Some(self.op.combine(&x, &y)),
            (Some(x), None) => Some(x),
            (None, y) => y,
        };
        proof {
            if (l as int) < (mid as int) && (mid as int) < (r as int) {
                assert(m1 == mid as int && m2 == mid as int);
                lemma_sfold_split(
                    self.op,
                    self.buf@,
                    self.offset + am,
                    self.offset + mid as int,
                    self.offset + bm,
                );
            } else if (r as int) <= (mid as int) {
                assert(m2 >= bm);
                assert(sfold(self.op, self.buf@, self.offset + m2, self.offset + bm) is None);
                assert(m1 == bm && am <= bm);
            } else {
                assert((l as int) >= (mid as int));
                assert(am >= m1);
                assert(sfold(self.op, self.buf@, self.offset + am, self.offset + m1) is None);
                assert(m2 == am);
            }
        }
        res
    }

    /// The fold of the filled slots among `[left, right)`; absent slots
    /// act as the identity, and an invalid or empty range yields `None`.
    pub fn query(&self, left: usize, right: usize) -> (res: Option<T>)
        requires
            self.wf(),
        ensures
            res == (if left < right && right <= self@.len() {
                self.range_fold(left as int, right as int)
            } else {
                None::<T>
            }),
    {
        if left >= right || right > self.size {
            return None;
        }
        proof {
            lemma_local_to_node_ok(self.op, self.buf@, 1, 0, self.offset as int, self.offset as int);
        }
        let r = self.query_node(1, 0, self.offset, left, right);
        proof {
            lemma_sfold_shift(
                self.op,
                self.buf@,
                self@,
                self.offset as int,
                left as int,
                right as int,
            );
        }
        r
    }
}

/// The parent of a heap node is among its ancestors.
proof fn lemma_anc_parent(t: int, i: int)
    requires
        i >= 2,
        t == i / 2,
    ensures
        anc(t, i),
{
    assert(t >= 1);
    assert(anc(t, t));
}

/// Whether `a` is `i` or one of its heap ancestors.
spec fn anc(a: int, i: int) -> bool
    decreases i,
{
    if i < 1 {
        false
    } else if a == i {
        true
    } else if i == 1 {
        false
    } else {
        anc(a, i / 2)
    }
}

/// Local parent-child combine equations below the root give the whole
/// subtree shape.
proof fn lemma_local_to_node_ok<T: Copy, F: CombineOp<T>>(
    op: F,
    buf: Seq<Option<T>>,
    idx: int,
    lo: int,
    hi: int,
    offset: int,
)
    requires
        buf.len() == 2 * offset,
        1 <= offset,
        0 < hi - lo,
        is_p2(hi - lo),
        1 <= idx,
        idx * (hi - lo) == offset + lo,
        0 <= lo,
        hi <= offset,
        local_ok(op, buf, offset),
    ensures
        node_ok(op, buf, idx, lo, hi, offset),
    decreases hi - lo,
{
    if hi - lo == 1 {
        assert(idx == offset + lo) by (nonlinear_arith)
            requires
                idx * (hi - lo) == offset + lo,
                hi - lo == 1,
        ;
        assert(sfold(op, buf, offset + lo, offset + hi) == opt_c(
            op,
            buf[offset + lo],
            sfold(op, buf, offset + lo + 1, offset + hi),
        ));
        assert(buf[idx] == sfold(op, buf, offset + lo, offset + hi));
    } else {
        let mid = lo + (hi - lo) / 2;
        assert(hi - lo >= 2 && (hi - lo) % 2 == 0);
        assert(2 * (mid - lo) == hi - lo);
        assert(hi - mid == mid - lo);
        assert(is_p2(mid - lo));
        assert((2 * idx) * (mid - lo) == offset + lo) by (nonlinear_arith)
            requires
                idx * (hi - lo) == offset + lo,
                2 * (mid - lo) == hi - lo,
        ;
        assert((2 * idx + 1) * (hi - mid) == offset + mid) by (nonlinear_arith)
            requires
                (2 * idx) * (mid - lo) == offset + lo,
                hi - mid == mid - lo,
        ;
        assert(idx < offset) by (nonlinear_arith)
            requires
                idx * (hi - lo) == offset + lo,
                hi - lo >= 2,
                idx >= 1,
                lo <= offset - 2,
        ;
        assert(lo <= offset - 2);
        lemma_local_to_node_ok(op, buf, 2 * idx, lo, mid, offset);
        lemma_local_to_node_ok(op, buf, 2 * idx + 1, mid, hi, offset);
        lemma_sfold_split(op, buf, offset + lo, offset + mid, offset + hi);
        assert(buf[idx] == opt_c(op, buf[2 * idx], buf[2 * idx + 1]));
    }
}


/// A version-persistent segment tree over the key range `[begin, end)`,
/// with a caller-supplied associative combine operator.
///
/// Every insert publishes a new version by copying only the root-to-leaf
/// path and sharing every untouched subtree with the previous version
/// through reference counting.  The view is the sequence of versions,
/// each the map of keys written so far.
#[derive(Clone)]
pub struct PstSegTree<T: Copy, F: CombineOp<T>> {
    roots: Vec<std::rc::Rc<PNode<T>>>,
    op: F,
    begin: usize,
    end: usize,
    maps: Ghost<Seq<Map<int, T>>>,
}

struct PNode<T> {
    val: T,
    size: usize,
    begin: usize,
    end: usize,
    left: PLink<T>,
    right: PLink<T>,
}

type PLink<T> = Option<std::rc::Rc<PNode<T>>>;

spec fn psize<T>(l: PLink<T>) -> nat {
    match l {
        None => 0,
        Some(n) => n.size as nat,
    }
}

/// The fold of a map's values over the inclusive key range `[a, b]`,
/// scanning keys upward; absence is the identity.
pub open spec fn mfold<T, F: CombineOp<T>>(op: F, m: Map<int, T>, a: int, b: int) -> Option<T>
    decreases b + 1 - a,
{
    if a > b {
        None
    } else {
        opt_c(
            op,
            if m.dom().contains(a) {
                Some(m[a])
            } else {
                None
            },
            mfold(op, m, a + 1, b),
        )
    }
}

/// The number of keys of `m` within the inclusive range `[a, b]`.
pub open spec fn kcnt<T>(m: Map<int, T>, a: int, b: int) -> nat
    decreases b + 1 - a,
{
    if a > b {
        0
    } else {
        (if m.dom().contains(a) {
            1nat
        } else {
            0nat
        }) + kcnt(m, a + 1, b)
    }
}

/// The `n`-th smallest key of `mb` within `[a, b]` that is absent from
/// `ma`, found by scanning upward.
pub open spec fn nth_new_key<T>(ma: Map<int, T>, mb: Map<int, T>, a: int, b: int, n: int) -> int
    decreases b + 1 - a,
{
    if a > b {
        a
    } else if mb.dom().contains(a) && !ma.dom().contains(a) {
        if n <= 1 {
            a
        } else {
            nth_new_key(ma, mb, a + 1, b, n - 1)
        }
    } else {
        nth_new_key(ma, mb, a + 1, b, n)
    }
}

/// A subtree standing for the keys of `m` within `[b, e]`: exact sizes,
/// aggregate values combined over the present keys in key order, and
/// absent exactly where the range holds no key.
spec fn pmodels<T: Copy, F: CombineOp<T>>(
    op: F,
    l: PLink<T>,
    m: Map<int, T>,
    b: int,
    e: int,
) -> bool
    decreases e - b,
{
    match l {
        None => kcnt(m, b, e) == 0,
        Some(n) => {
            &&& n.begin == b && n.end == e
            &&& 0 <= b <= e
            &&& n.size == kcnt(m, b, e)
            &&& n.size >= 1
            &&& Some(n.val) == mfold(op, m, b, e)
            &&& (b < e ==> {
                let mid = b + (e - b) / 2;
                pmodels(op, n.left, m, b, mid) && pmodels(op, n.right, m, mid + 1, e)
            })
        },
    }
}

proof fn lemma_kcnt_split<T>(m: Map<int, T>, a: int, b: int, c: int)
    requires
        a <= b + 1,
        b <= c,
    ensures
        kcnt(m, a, c) == kcnt(m, a, b) + kcnt(m, b + 1, c),
    decreases b + 1 - a,
{
    if a <= b {
        lemma_kcnt_split(m, a + 1, b, c);
    }
}

proof fn lemma_mfold_split<T, F: CombineOp<T>>(op: F, m: Map<int, T>, a: int, b: int, c: int)
    requires
        a <= b + 1,
        b <= c,
    ensures
        mfold(op, m, a, c) == opt_c(op, mfold(op, m, a, b), mfold(op, m, b + 1, c)),
    decreases b + 1 - a,
{
    if a > b {
    } else {
        lemma_mfold_split(op, m, a + 1, b, c);
        lemma_opt_assoc(
            op,
            if m.dom().contains(a) {
                Some(m[a])
            } else {
                None
            },
            mfold(op, m, a + 1, b),
            mfold(op, m, b + 1, c),
        );
    }
}

/// A subtree's shape only depends on the keys of its own range.
proof fn lemma_pmodels_frame<T: Copy, F: CombineOp<T>>(
    op: F,
    l: &PLink<T>,
    m1: Map<int, T>,
    m2: Map<int, T>,
    b: int,
    e: int,
)
    requires
        pmodels(op, *l, m1, b, e),
        forall|k: int| #![trigger m1.dom().contains(k)] #![trigger m2.dom().contains(k)]
            b <= k <= e ==> (m1.dom().contains(k) == m2.dom().contains(k) && (m1.dom().contains(
                k,
            ) ==> m1[k] == m2[k])),
    ensures
        pmodels(op, *l, m2, b, e),
    decreases *l,
{
    lemma_kcnt_agree(m1, m2, b, e);
    lemma_mfold_agree(op, m1, m2, b, e);
    match l {
        None => {},
        Some(n) => {
            if b < e {
                let mid = b + (e - b) / 2;
                lemma_pmodels_frame(op, &n.left, m1, m2, b, mid);
                lemma_pmodels_frame(op, &n.right, m1, m2, mid + 1, e);
            }
        },
    }
}

proof fn lemma_kcnt_agree<T>(m1: Map<int, T>, m2: Map<int, T>, a: int, b: int)
    requires
        forall|k: int| #![trigger m1.dom().contains(k)] #![trigger m2.dom().contains(k)]
            a <= k <= b ==> m1.dom().contains(k) == m2.dom().contains(k),
    ensures
        kcnt(m1, a, b) == kcnt(m2, a, b),
    decreases b + 1 - a,
{
    if a <= b {
        lemma_kcnt_agree(m1, m2, a + 1, b);
    }
}

proof fn lemma_mfold_agree<T, F: CombineOp<T>>(op: F, m1: Map<int, T>, m2: Map<int, T>, a: int, b: int)
    requires
        forall|k: int| #![trigger m1.dom().contains(k)] #![trigger m2.dom().contains(k)]
            a <= k <= b ==> (m1.dom().contains(k) == m2.dom().contains(k) && (m1.dom().contains(
                k,
            ) ==> m1[k] == m2[k])),
    ensures
        mfold(op, m1, a, b) == mfold(op, m2, a, b),
    decreases b + 1 - a,
{
    if a <= b {
        lemma_mfold_agree(op, m1, m2, a + 1, b);
    }
}

impl<T: Copy, F: CombineOp<T>> PstSegTree<T, F> {
    /// Well-formedness: one model map per version root, all keys within
    /// the configured range, and domains that only grow from version to
    /// version.  Established by `new`, preserved by `insert`.
    pub closed spec fn wf(self) -> bool {
        &&& self.begin < self.end
        &&& self.end <= usize::MAX / 2
        &&& self.roots@.len() == self.maps@.len()
        &&& forall|i: int|
            0 <= i < self.roots@.len() ==> pmodels(
                self.op,
                Some(#[trigger] self.roots@[i]),
                self.maps@[i],
                self.begin as int,
                self.end as int,
            )
        &&& forall|i: int, k: int|
            0 <= i < self.maps@.len() && #[trigger] self.maps@[i].dom().contains(k)
                ==> self.begin <= k < self.end
        &&& forall|i: int, k: int|
            0 <= i < self.maps@.len() - 1 && #[trigger] self.maps@[i].dom().contains(k)
                ==> self.maps@[i + 1].dom().contains(k)
    }

    /// The versions, oldest first: each a map of written keys.
    pub closed spec fn view(self) -> Seq<Map<int, T>> {
        self.maps@
    }

    pub closed spec fn op_spec(self) -> F {
        self.op
    }

    pub closed spec fn begin_spec(self) -> int {
        self.begin as int
    }

    pub closed spec fn end_spec(self) -> int {
        self.end as int
    }

    /// A tree over the key range `[begin, end)` with no versions yet.
    pub fn new(begin: usize, end: usize, op: F) -> (s: Self)
        requires
            begin < end,
            end <= usize::MAX / 2,
        ensures
            s.wf(),
            s@ == Seq::<Map<int, T>>::empty(),
            s.op_spec() == op,
            s.begin_spec() == begin,
            s.end_spec() == end,
    {
        PstSegTree { roots: Vec::new(), op, begin, end, maps: Ghost(Seq::empty()) }
    }

    /// The number of published versions.
    pub fn versions(&self) -> (r: usize)
        requires
            self.wf(),
        ensures
            r == self@.len(),
    {
        self.roots.len()
    }

    fn insert_node(
        op: &F,
        node: Option<&std::rc::Rc<PNode<T>>>,
        key: usize,
        val: T,
        b: usize,
        e: usize,
        Ghost(m): Ghost<Map<int, T>>,
    ) -> (r: std::rc::Rc<PNode<T>>)
        requires
            b <= key <= e,
            e <= usize::MAX / 2,
            pmodels(
                *op,
                match node {
                    Some(rc) => Some(*rc),
                    None => None,
                },
                m,
                b as int,
                e as int,
            ),
        ensures
            pmodels(*op, Some(r), m.insert(key as int, val), b as int, e as int),
        decreases e - b,
    {
        let ghost m2 = m.insert(key as int, val);
        if b == e {
            let r = std::rc::Rc::new(
                PNode { val, size: 1, begin: b, end: e, left: None, right: None },
            );
            proof {
                assert(key == b);
                assert(m2.dom().contains(b as int));
                assert(kcnt(m2, b as int + 1, e as int) == 0);
                assert(kcnt(m2, b as int, e as int) == 1);
                assert(mfold(*op, m2, b as int + 1, e as int) is None);
                assert(mfold(*op, m2, b as int, e as int) == Some(val));
            }
            return r;
        }
        let mid = b + (e - b) / 2;
        let ghost gmid = mid as int;
        proof {
            lemma_kcnt_split(m, b as int, gmid, e as int);
            lemma_kcnt_split(m2, b as int, gmid, e as int);
            lemma_mfold_split(*op, m, b as int, gmid, e as int);
            lemma_mfold_split(*op, m2, b as int, gmid, e as int);
            if node is Some {
            } else {
                assert(kcnt(m, b as int, gmid) == 0 && kcnt(m, gmid + 1, e as int) == 0);
            }
        }
        let (oldl, oldr): (Option<&std::rc::Rc<PNode<T>>>, Option<&std::rc::Rc<PNode<T>>>) =
            match node {
            Some(rc) => (rc.left.as_ref(), rc.right.as_ref()),
            None => (None, None),
        };
        if key <= mid {
            let nl = Self::insert_node(op, oldl, key, val, b, mid, Ghost(m));
            let nr: PLink<T> = match oldr {
                Some(rc) => Some(crate::shared::rc_clone(rc)),
                None => None,
            };
            proof {
                lemma_pmodels_frame(*op, &nr, m, m2, gmid + 1, e as int);
            }
            let rsz = match &nr {
                Some(rc) => rc.size,
                None => 0,
            };
            let nval = match &nr {
                Some(rc) => op.combine(&nl.val, &rc.val),
                None => nl.val,
            };
            proof {
                lemma_kcnt_bound(m2, b as int, gmid);
                lemma_kcnt_bound(m2, gmid + 1, e as int);
                assert(nl.size + rsz == kcnt(m2, b as int, e as int));
                if nr is None {
                    lemma_mfold_none(*op, m2, gmid + 1, e as int);
                }
                assert(Some(nval) == mfold(*op, m2, b as int, e as int));
            }
            let r = std::rc::Rc::new(
                PNode { val: nval, size: nl.size + rsz, begin: b, end: e, left: Some(nl), right: nr },
            );
            r
        } else {
            let nr = Self::insert_node(op, oldr, key, val, mid + 1, e, Ghost(m));
            let nl: PLink<T> = match oldl {
                Some(rc) => Some(crate::shared::rc_clone(rc)),
                None => None,
            };
            proof {
                lemma_pmodels_frame(*op, &nl, m, m2, b as int, gmid);
            }
            let lsz = match &nl {
                Some(rc) => rc.size,
                None => 0,
            };
            let nval = match &nl {
                Some(rc) => op.combine(&rc.val, &nr.val),
                None => nr.val,
            };
            proof {
                lemma_kcnt_bound(m2, b as int, gmid);
                lemma_kcnt_bound(m2, gmid + 1, e as int);
                assert(lsz + nr.size == kcnt(m2, b as int, e as int));
                if nl is None {
                    lemma_mfold_none(*op, m2, b as int, gmid);
                }
                assert(Some(nval) == mfold(*op, m2, b as int, e as int));
            }
            let r = std::rc::Rc::new(
                PNode { val: nval, size: lsz + nr.size, begin: b, end: e, left: nl, right: Some(nr) },
            );
            r
        }
    }

    /// Writes `key -> val`, publishing a new version; earlier versions
    /// are untouched.
    pub fn insert(&mut self, key: usize, val: T)
        requires
            old(self).wf(),
            old(self).begin_spec() <= key < old(self).end_spec(),
        ensures
            final(self).wf(),
            final(self)@ == old(self)@.push(
                (if old(self)@.len() == 0 {
                    Map::<int, T>::empty()
                } else {
                    old(self)@.last()
                }).insert(key as int, val),
            ),
            final(self).op_spec() == old(self).op_spec(),
            final(self).begin_spec() == old(self).begin_spec(),
            final(self).end_spec() == old(self).end_spec(),
    {
        let ghost m = if self.maps@.len() == 0 {
            Map::<int, T>::empty()
        } else {
            self.maps@.last()
        };
        proof {
            if self.maps@.len() == 0 {
                assert(kcnt(m, self.begin as int, self.end as int) == 0) by {
                    lemma_kcnt_empty::<T>(self.begin as int, self.end as int);
                }
            }
        }
        let n = self.roots.len();
        let node: Option<&std::rc::Rc<PNode<T>>> = if n > 0 {
            Some(&self.roots[n - 1])
        } else {
            None
        };
        let nr = Self::insert_node(&self.op, node, key, val, self.begin, self.end, Ghost(m));
        self.roots.push(nr);
        proof {
            self.maps@ = self.maps@.push(m.insert(key as int, val));
        }
    }

    fn query_node(
        op: &F,
        node: &std::rc::Rc<PNode<T>>,
        l: usize,
        r: usize,
        Ghost(m): Ghost<Map<int, T>>,
    ) -> (res: Option<T>)
        requires
            pmodels(*op, Some(*node), m, node.begin as int, node.end as int),
            l <= r,
        ensures
            res == mfold(
                *op,
                m,
                if l as int > node.begin as int {
                    l as int
                } else {
                    node.begin as int
                },
                if (r as int) < (node.end as int) {
                    r as int
                } else {
                    node.end as int
                },
            ),
        decreases node.end as int - node.begin as int,
    {
        let b = node.begin;
        let e = node.end;
        let ghost am = if l as int > b as int {
            l as int
        } else {
            b as int
        };
        let ghost bm = if (r as int) < (e as int) {
            r as int
        } else {
            e as int
        };
        if e < l || r < b {
            proof {
                assert(am > bm);
            }
            return None;
        }
        if l <= b && e <= r {
            return Some(node.val);
        }
        proof {
            assert(b < e);
        }
        let mid = b + (e - b) / 2;
        let ghost gmid = mid as int;
        proof {
            lemma_kcnt_split(m, b as int, gmid, e as int);
            assert(pmodels(*op, node.left, m, b as int, gmid));
            assert(pmodels(*op, node.right, m, gmid + 1, e as int));
            assert(node.left matches Some(c) ==> c.begin == b && c.end == mid);
            assert(node.right matches Some(c) ==> c.begin == mid + 1 && c.end == e);
        }
        let lres = match &node.left {
            Some(c) => Self::query_node(op, c, l, r, Ghost(m)),
            None => {
                proof {
                    let a2 = if l as int > b as int {
                        l as int
                    } else {
                        b as int
                    };
                    let b2 = if (r as int) < gmid {
                        r as int
                    } else {
                        gmid
                    };
                    if a2 <= b2 {
                        lemma_kcnt_split(m, b as int, a2 - 1, gmid);
                        lemma_kcnt_split(m, a2, b2, gmid);
                        lemma_mfold_none(*op, m, a2, b2);
                    }
                }
                None
            },
        };
        let rres = match &node.right {
            Some(c) => Self::query_node(op, c, l, r, Ghost(m)),
            None => {
                proof {
                    let a2 = if l as int > gmid + 1 {
                        l as int
                    } else {
                        gmid + 1
                    };
                    let b2 = if (r as int) < e as int {
                        r as int
                    } else {
                        e as int
                    };
                    if a2 <= b2 {
                        lemma_kcnt_split(m, gmid + 1, a2 - 1, e as int);
                        lemma_kcnt_split(m, a2, b2, e as int);
                        lemma_mfold_none(*op, m, a2, b2);
                    }
                }
                None
            },
        };
        let res = match (lres, rres) {
            (Some(x), Some(y)) => Some(op.combine(&x, &y)),
            (Some(x), None) => Some(x),
            (None, y) => y,
        };
        proof {
            let m1 = if (r as int) < gmid {
                r as int
            } else {
                gmid
            };
            let m2 = if l as int > gmid + 1 {
                l as int
            } else {
                gmid + 1
            };
            if l as int <= gmid && gmid + 1 <= r as int {
                assert(m1 == gmid && m2 == gmid + 1);
                lemma_mfold_split(*op, m, am, gmid, bm);
            } else if (r as int) <= gmid {
                assert(m2 > bm);
                assert(mfold(*op, m, m2, bm) is None);
                assert(m1 == bm);
            } else {
                assert(l as int >= gmid + 1);
                assert(am > m1);
                assert(mfold(*op, m, am, m1) is None);
                assert(m2 == am);
            }
        }
        res
    }

    /// The fold of the latest version's values over the keys of
    /// `[left, right)`; `None` when there is no version, the range is
    /// invalid, or the range holds no key.
    pub fn query(&self, left: usize, right: usize) -> (res: Option<T>)
        requires
            self.wf(),
        ensures
            res == (if self@.len() > 0 && left < right {
                mfold(
                    self.op_spec(),
                    self@.last(),
                    if left as int > self.begin_spec() {
                        left as int
                    } else {
                        self.begin_spec()
                    },
                    if right - 1 < self.end_spec() {
                        right - 1
                    } else {
                        self.end_spec()
                    },
                )
            } else {
                None::<T>
            }),
    {
        if left >= right || self.roots.len() == 0 {
            return None;
        }
        let n = self.roots.len();
        let root = &self.roots[n - 1];
        Self::query_node(&self.op, root, left, right - 1, Ghost(self.maps@.last()))
    }

    fn nth_node(
        op: &F,
        n1: Option<&std::rc::Rc<PNode<T>>>,
        n2: &std::rc::Rc<PNode<T>>,
        nth: usize,
        Ghost(ma): Ghost<Map<int, T>>,
        Ghost(mb): Ghost<Map<int, T>>,
    ) -> (res: T)
        requires
            pmodels(*op, Some(*n2), mb, n2.begin as int, n2.end as int),
            pmodels(
                *op,
                match n1 {
                    Some(rc) => Some(*rc),
                    None => None,
                },
                ma,
                n2.begin as int,
                n2.end as int,
            ),
            forall|k: int| #![trigger ma.dom().contains(k)]
                ma.dom().contains(k) ==> mb.dom().contains(k),
            1 <= nth <= ncnt(ma, mb, n2.begin as int, n2.end as int),
        ensures
            res == mb[nth_new_key(ma, mb, n2.begin as int, n2.end as int, nth as int)],
        decreases n2.end as int - n2.begin as int,
    {
        let b = n2.begin;
        let e = n2.end;
        proof {
            lemma_ncnt_diff(ma, mb, b as int, e as int);
        }
        if b == e {
            proof {
                assert(ncnt(ma, mb, b as int + 1, e as int) == 0);
                assert(mb.dom().contains(b as int) && !ma.dom().contains(b as int));
                assert(nth == 1);
                assert(nth_new_key(ma, mb, b as int, e as int, nth as int) == b);
                assert(mfold(*op, mb, b as int + 1, e as int) is None);
                assert(Some(n2.val) == mfold(*op, mb, b as int, e as int));
            }
            return n2.val;
        }
        let mid = b + (e - b) / 2;
        let ghost gmid = mid as int;
        proof {
            lemma_kcnt_split(ma, b as int, gmid, e as int);
            lemma_kcnt_split(mb, b as int, gmid, e as int);
            lemma_ncnt_split(ma, mb, b as int, gmid, e as int);
            lemma_ncnt_diff(ma, mb, b as int, gmid);
            lemma_ncnt_diff(ma, mb, gmid + 1, e as int);
            assert(pmodels(*op, n2.left, mb, b as int, gmid));
            assert(pmodels(*op, n2.right, mb, gmid + 1, e as int));
            assert(n2.left matches Some(c) ==> c.begin == b && c.end == mid);
            assert(n2.right matches Some(c) ==> c.begin == mid + 1 && c.end == e);
            assert(n1 matches Some(rc) ==> pmodels(*op, rc.left, ma, b as int, gmid) && pmodels(
                *op,
                rc.right,
                ma,
                gmid + 1,
                e as int,
            ));
        }
        let ls1 = match n1 {
            Some(rc) => match &rc.left {
                Some(c) => c.size,
                None => 0,
            },
            None => 0,
        };
        let ls2 = match &n2.left {
            Some(c) => c.size,
            None => 0,
        };
        proof {
            assert(ls1 == kcnt(ma, b as int, gmid));
            assert(ls2 == kcnt(mb, b as int, gmid));
        }
        let d = ls2 - ls1;
        if nth <= d {
            proof {
                lemma_nth_left(ma, mb, b as int, gmid, e as int, nth as int);
                assert(kcnt(mb, b as int, gmid) >= 1);
            }
            let c2 = match &n2.left {
                Some(c) => c,
                None => {
                    proof {
                        assert(false);
                    }
                    vstd::pervasive::unreached()
                },
            };
            let c1: Option<&std::rc::Rc<PNode<T>>> = match n1 {
                Some(rc) => rc.left.as_ref(),
                None => None,
            };
            proof {
                if n1 is None {
                    assert(kcnt(ma, b as int, gmid) == 0);
                }
            }
            Self::nth_node(op, c1, c2, nth, Ghost(ma), Ghost(mb))
        } else {
            proof {
                lemma_nth_right(ma, mb, b as int, gmid, e as int, nth as int);
                assert(kcnt(mb, gmid + 1, e as int) >= 1);
            }
            let c2 = match &n2.right {
                Some(c) => c,
                None => {
                    proof {
                        assert(false);
                    }
                    vstd::pervasive::unreached()
                },
            };
            let c1: Option<&std::rc::Rc<PNode<T>>> = match n1 {
                Some(rc) => rc.right.as_ref(),
                None => None,
            };
            proof {
                if n1 is None {
                    assert(kcnt(ma, gmid + 1, e as int) == 0);
                }
            }
            Self::nth_node(op, c1, c2, nth - d, Ghost(ma), Ghost(mb))
        }
    }

    /// The version window `(l, r]` (one-indexed, clamped to the versions
    /// that exist) marks the keys present in its last version but not in
    /// its first; the result is the latest value at the `nth` smallest
    /// such key.  `None` for an empty or inverted window or a rank
    /// beyond the marked keys.
    pub fn query_nth(&self, l: usize, r: usize, nth: usize) -> (res: Option<T>)
        requires
            self.wf(),
        ensures
            ({
                let ma = if 1 <= l && l <= self@.len() {
                    self@[l as int - 1]
                } else {
                    Map::<int, T>::empty()
                };
                let mb = if self@.len() > 0 && r >= 1 {
                    self@[(if r < self@.len() {
                        r as int
                    } else {
                        self@.len() as int
                    }) - 1]
                } else {
                    Map::<int, T>::empty()
                };
                res == (if r < l || nth == 0 || r == 0 || self@.len() == 0 || ncnt(
                    ma,
                    mb,
                    self.begin_spec(),
                    self.end_spec(),
                ) < nth {
                    None::<T>
                } else {
                    Some(mb[nth_new_key(ma, mb, self.begin_spec(), self.end_spec(), nth as int)])
                })
            }),
    {
        if r < l || nth == 0 || r == 0 || self.roots.len() == 0 {
            return None;
        }
        let len = self.roots.len();
        let l_node: Option<&std::rc::Rc<PNode<T>>> = if 1 <= l && l <= len {
            Some(&self.roots[l - 1])
        } else {
            None
        };
        let bi = if r < len {
            r
        } else {
            len
        } - 1;
        let r_node = &self.roots[bi];
        let ghost ma = if 1 <= l && l <= self@.len() {
            self@[l as int - 1]
        } else {
            Map::<int, T>::empty()
        };
        let ghost mb = self@[bi as int];
        proof {
            if l_node is None {
                lemma_kcnt_empty::<T>(self.begin as int, self.end as int);
            }
            assert forall|k: int| ma.dom().contains(k) implies mb.dom().contains(k) by {
                if 1 <= l && l <= self@.len() {
                    lemma_dom_monotone(*self, l as int - 1, bi as int, k);
                }
            }
            lemma_ncnt_diff(ma, mb, self.begin as int, self.end as int);
        }
        let size1 = match l_node {
            Some(rc) => rc.size,
            None => 0,
        };
        let size2 = r_node.size;
        proof {
            if l_node is Some && l - 1 > bi {
                lemma_kcnt_mono(*self, bi as int, l as int - 1);
            }
        }
        if size2 < size1 || size2 - size1 < nth {
            proof {
                assert(ncnt(ma, mb, self.begin as int, self.end as int) < nth);
            }
            return None;
        }
        Some(Self::nth_node(&self.op, l_node, r_node, nth, Ghost(ma), Ghost(mb)))
    }
}

/// The count of keys of `mb` in `[a, b]` that are absent from `ma`.
pub open spec fn ncnt<T>(ma: Map<int, T>, mb: Map<int, T>, a: int, b: int) -> nat
    decreases b + 1 - a,
{
    if a > b {
        0
    } else {
        (if mb.dom().contains(a) && !ma.dom().contains(a) {
            1nat
        } else {
            0nat
        }) + ncnt(ma, mb, a + 1, b)
    }
}

/// When `ma`'s keys all lie in `mb`, the new-key count is the count
/// difference.
proof fn lemma_ncnt_diff<T>(ma: Map<int, T>, mb: Map<int, T>, a: int, b: int)
    requires
        forall|k: int| #![trigger ma.dom().contains(k)]
            a <= k <= b && ma.dom().contains(k) ==> mb.dom().contains(k),
    ensures
        ncnt(ma, mb, a, b) == kcnt(mb, a, b) - kcnt(ma, a, b),
        kcnt(ma, a, b) <= kcnt(mb, a, b),
    decreases b + 1 - a,
{
    if a <= b {
        lemma_ncnt_diff(ma, mb, a + 1, b);
    }
}

proof fn lemma_ncnt_split<T>(ma: Map<int, T>, mb: Map<int, T>, a: int, b: int, c: int)
    requires
        a <= b + 1,
        b <= c,
    ensures
        ncnt(ma, mb, a, c) == ncnt(ma, mb, a, b) + ncnt(ma, mb, b + 1, c),
    decreases b + 1 - a,
{
    if a <= b {
        lemma_ncnt_split(ma, mb, a + 1, b, c);
    }
}

/// A low-ranked new key is found inside the left half.
proof fn lemma_nth_left<T>(ma: Map<int, T>, mb: Map<int, T>, a: int, mid: int, b: int, n: int)
    requires
        a <= mid <= b,
        1 <= n <= ncnt(ma, mb, a, mid),
    ensures
        nth_new_key(ma, mb, a, b, n) == nth_new_key(ma, mb, a, mid, n),
    decreases mid + 1 - a,
{
    if mb.dom().contains(a) && !ma.dom().contains(a) {
        if n > 1 {
            assert(n - 1 <= ncnt(ma, mb, a + 1, mid));
            assert(a + 1 <= mid) by {
                if a + 1 > mid {
                    assert(ncnt(ma, mb, a + 1, mid) == 0);
                }
            }
            lemma_nth_left(ma, mb, a + 1, mid, b, n - 1);
        }
    } else {
        assert(n <= ncnt(ma, mb, a + 1, mid));
        assert(a + 1 <= mid) by {
            if a + 1 > mid {
                assert(ncnt(ma, mb, a + 1, mid) == 0);
            }
        }
        lemma_nth_left(ma, mb, a + 1, mid, b, n);
    }
}

/// A high-ranked new key is found inside the right half, at the rank
/// lowered by the left half's new keys.
proof fn lemma_nth_right<T>(ma: Map<int, T>, mb: Map<int, T>, a: int, mid: int, b: int, n: int)
    requires
        a <= mid + 1,
        mid <= b,
        n > ncnt(ma, mb, a, mid),
    ensures
        nth_new_key(ma, mb, a, b, n) == nth_new_key(ma, mb, mid + 1, b, n - ncnt(ma, mb, a, mid)),
    decreases mid + 1 - a,
{
    if a <= mid {
        if mb.dom().contains(a) && !ma.dom().contains(a) {
            lemma_nth_right(ma, mb, a + 1, mid, b, n - 1);
        } else {
            lemma_nth_right(ma, mb, a + 1, mid, b, n);
        }
    }
}

/// The found key really is a fresh key of the window, inside the range.
proof fn lemma_nth_props<T>(ma: Map<int, T>, mb: Map<int, T>, a: int, b: int, n: int)
    requires
        1 <= n <= ncnt(ma, mb, a, b),
    ensures
        a <= nth_new_key(ma, mb, a, b, n) <= b,
        mb.dom().contains(nth_new_key(ma, mb, a, b, n)),
        !ma.dom().contains(nth_new_key(ma, mb, a, b, n)),
    decreases b + 1 - a,
{
    if mb.dom().contains(a) && !ma.dom().contains(a) {
        if n > 1 {
            lemma_nth_props(ma, mb, a + 1, b, n - 1);
        }
    } else {
        lemma_nth_props(ma, mb, a + 1, b, n);
    }
}

proof fn lemma_mfold_none<T, F: CombineOp<T>>(op: F, m: Map<int, T>, a: int, b: int)
    requires
        kcnt(m, a, b) == 0,
    ensures
        mfold(op, m, a, b) is None,
    decreases b + 1 - a,
{
    if a <= b {
        lemma_mfold_none(op, m, a + 1, b);
    }
}

proof fn lemma_kcnt_bound<T>(m: Map<int, T>, a: int, b: int)
    ensures
        kcnt(m, a, b) <= (if a > b {
            0int
        } else {
            b + 1 - a
        }),
    decreases b + 1 - a,
{
    if a <= b {
        lemma_kcnt_bound(m, a + 1, b);
    }
}


/// Keys only accumulate from version to version.
proof fn lemma_dom_monotone<T: Copy, F: CombineOp<T>>(s: PstSegTree<T, F>, i: int, j: int, k: int)
    requires
        s.wf(),
        0 <= i <= j < s@.len(),
        s@[i].dom().contains(k),
    ensures
        s@[j].dom().contains(k),
    decreases j - i,
{
    if i < j {
        lemma_dom_monotone(s, i + 1, j, k);
    }
}

/// A later version holds at least as many keys.
proof fn lemma_kcnt_mono<T: Copy, F: CombineOp<T>>(s: PstSegTree<T, F>, i: int, j: int)
    requires
        s.wf(),
        0 <= i <= j < s@.len(),
    ensures
        kcnt(s@[i], s.begin_spec(), s.end_spec()) <= kcnt(s@[j], s.begin_spec(), s.end_spec()),
    decreases j - i,
{
    if i < j {
        lemma_kcnt_mono(s, i, j - 1);
        lemma_ncnt_diff(s@[j - 1], s@[j], s.begin_spec(), s.end_spec());
        assert forall|k: int| #![trigger s@[j - 1].dom().contains(k)]
            s.begin_spec() <= k <= s.end_spec() && s@[j - 1].dom().contains(k) implies s@[
        j].dom().contains(k) by {}
    }
}

proof fn lemma_kcnt_empty<T>(a: int, b: int)
    ensures
        kcnt(Map::<int, T>::empty(), a, b) == 0,
    decreases b + 1 - a,
{
    if a <= b {
        lemma_kcnt_empty::<T>(a + 1, b);
    }
}

} // verus!
