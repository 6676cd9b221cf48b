use vstd::arithmetic::div_mod::lemma_add_mod_noop;
use vstd::arithmetic::div_mod::lemma_mod_multiples_vanish;
use vstd::arithmetic::div_mod::lemma_small_mod;
use vstd::arithmetic::div_mod::lemma_sub_mod_noop;
use vstd::prelude::*;

verus! {

/// A Fenwick (binary indexed) tree over `n` cells of unsigned 64-bit
/// counters.
///
/// The view is the sequence of exact (unbounded) cell values; `update`
/// adds a delta to one cell and `query` returns a range sum, both
/// reduced modulo two to the sixty-fourth, which is the machine
/// arithmetic the tree stores.
pub struct BIT {
    buf: Vec<u64>,
    vals: Ghost<Seq<int>>,
}

/// The modulus of the stored counters.
pub open spec fn m64(x: int) -> u64 {
    (x % 0x1_0000_0000_0000_0000) as u64
}

/// The sum of the cells of `[a, b)`.
pub open spec fn ssum(s: Seq<int>, a: int, b: int) -> int
    decreases b - a,
{
    if a >= b || a < 0 || b > s.len() {
        0
    } else {
        s[a] + ssum(s, a + 1, b)
    }
}

/// The start of the range a tree slot covers: the slot index with its
/// lowest set bit cleared.
spec fn st(j: usize) -> usize {
    j & ((j - 1) as usize)
}

proof fn lemma_ssum_split(s: Seq<int>, a: int, b: int, c: int)
    requires
        0 <= a <= b <= c <= s.len(),
    ensures
        ssum(s, a, c) == ssum(s, a, b) + ssum(s, b, c),
    decreases b - a,
{
    if a < b {
        lemma_ssum_split(s, a + 1, b, c);
    }
}

proof fn lemma_ssum_nonneg(s: Seq<int>, a: int, b: int)
    requires
        forall|k: int| 0 <= k < s.len() ==> s[k] >= 0,
    ensures
        ssum(s, a, b) >= 0,
    decreases b - a,
{
    if !(a >= b || a < 0 || b > s.len()) {
        lemma_ssum_nonneg(s, a + 1, b);
    }
}

/// A range that misses the touched cell sums to the same value.
proof fn lemma_ssum_update_outside(s: Seq<int>, i: int, v: int, a: int, b: int)
    requires
        0 <= i < s.len(),
        !(a <= i < b),
    ensures
        ssum(s.update(i, v), a, b) == ssum(s, a, b),
    decreases b - a,
{
    if !(a >= b || a < 0 || b > s.len()) {
        lemma_ssum_update_outside(s, i, v, a + 1, b);
    }
}

/// A range over the touched cell gains exactly the added amount.
proof fn lemma_ssum_update_inside(s: Seq<int>, i: int, d: int, a: int, b: int)
    requires
        0 <= i < s.len(),
        a <= i < b,
        b <= s.len(),
        0 <= a,
    ensures
        ssum(s.update(i, s[i] + d), a, b) == ssum(s, a, b) + d,
    decreases b - a,
{
    if a == i {
        lemma_ssum_update_outside(s, i, s[i] + d, a + 1, b);
    } else {
        lemma_ssum_update_inside(s, i, d, a + 1, b);
    }
}

/// Machine addition of reduced values is the reduction of the sum.
proof fn lemma_m64_add(x: int, y: int)
    requires
        x >= 0,
        y >= 0,
    ensures
        vstd::wrapping::u64_specs::wrapping_add(m64(x), m64(y)) == m64(x + y),
{
    let r = 0x1_0000_0000_0000_0000;
    let a = x % r;
    let b = y % r;
    lemma_add_mod_noop(x, y, r);
    if a + b > u64::MAX {
        lemma_mod_multiples_vanish(1, a + b - r, r);
        lemma_small_mod((a + b - r) as nat, r as nat);
    } else {
        lemma_small_mod((a + b) as nat, r as nat);
    }
}

/// Machine subtraction of reduced values is the reduction of the
/// difference, for an ordered pair of sums.
proof fn lemma_m64_sub(x: int, y: int)
    requires
        0 <= y <= x,
    ensures
        vstd::wrapping::u64_specs::wrapping_sub(m64(x), m64(y)) == m64(x - y),
{
    let r = 0x1_0000_0000_0000_0000;
    let a = x % r;
    let b = y % r;
    lemma_sub_mod_noop(x, y, r);
    if a - b < 0 {
        lemma_mod_multiples_vanish(1, a - b, r);
        lemma_small_mod((a - b + r) as nat, r as nat);
    } else {
        lemma_small_mod((a - b) as nat, r as nat);
    }
}

impl BIT {
    /// Well-formedness: one tree slot per cell plus the unused slot
    /// zero; every slot holds the reduced sum of the cell range it
    /// covers.  Established by `new`, preserved by `update`.
    pub closed spec fn wf(self) -> bool {
        &&& self.buf@.len() == self.vals@.len() + 1
        &&& self.buf@.len() >= 1
        &&& self.buf@.len() <= usize::MAX / 2
        &&& forall|k: int| 0 <= k < self.vals@.len() ==> self.vals@[k] >= 0
        &&& forall|j: usize|
            1 <= j < self.buf@.len() ==> self.buf@[j as int] == m64(
                ssum(self.vals@, #[trigger] st(j) as int, j as int),
            )
    }

    /// The exact cell values.
    pub closed spec fn view(self) -> Seq<int> {
        self.vals@
    }

    /// A tree of `n` cells, all zero.
    pub fn new(n: usize) -> (s: Self)
        requires
            n < usize::MAX / 2,
        ensures
            s.wf(),
            s@.len() == n,
            forall|k: int| 0 <= k < n ==> s@[k] == 0,
    {
        let mut buf: Vec<u64> = Vec::new();
        let mut i: usize = 0;
        while i < n + 1
            invariant
                n < usize::MAX / 2,
                i <= n + 1,
                buf@.len() == i,
                forall|k: int| 0 <= k < i ==> buf@[k] == 0,
            decreases n + 1 - i,
        {
            buf.push(0);
            i = i + 1;
        }
        let s = BIT { buf, vals: Ghost(Seq::new(n as nat, |k: int| 0int)) };
        proof {
            assert forall|j: usize| 1 <= j < s.buf@.len() implies s.buf@[j as int] == m64(
                ssum(s.vals@, #[trigger] st(j) as int, j as int),
            ) by {
                lemma_ssum_zero(s.vals@, st(j) as int, j as int);
            }
        }
        s
    }

    pub fn len(&self) -> (r: usize)
        requires
            self.wf(),
        ensures
            r == self@.len(),
    {
        self.buf.len() - 1
    }

    /// Adds `delta` to cell `i`.
    pub fn update(&mut self, i: usize, delta: u64)
        requires
            old(self).wf(),
            i < old(self)@.len(),
        ensures
            final(self).wf(),
            final(self)@ == old(self)@.update(i as int, old(self)@[i as int] + delta),
    {
        let ghost oldv = self.vals@;
        let ghost newv = oldv.update(i as int, oldv[i as int] + delta);
        let n = self.buf.len();
        let mut buf: Vec<u64> = Vec::new();
        core::mem::swap(&mut buf, &mut self.buf);
        let mut j = i + 1;
        proof {
            assert(st((i + 1) as usize) <= i) by (bit_vector);
        }
        while j < n
            invariant
                buf@.len() == n,
                n == oldv.len() + 1,
                n <= usize::MAX / 2,
                i < oldv.len(),
                newv == oldv.update(i as int, oldv[i as int] + delta),
                forall|k: int| 0 <= k < oldv.len() ==> oldv[k] >= 0,
                j >= i + 1,
                st(j) <= i || j >= n,
                forall|t: usize|
                    1 <= t < n && !(st(t) <= i < t) ==> buf@[t as int] == m64(
                        ssum(oldv, #[trigger] st(t) as int, t as int),
                    ),
                forall|t: usize|
                    1 <= t < n && (st(t) <= i < t) && t < j ==> buf@[t as int] == m64(
                        ssum(newv, #[trigger] st(t) as int, t as int),
                    ),
                forall|t: usize|
                    1 <= t < n && (st(t) <= i < t) && t >= j ==> buf@[t as int] == m64(
                        ssum(oldv, #[trigger] st(t) as int, t as int),
                    ),
            decreases (if j <= n {
                (n - j) as int
            } else {
                0int
            }),
        {
            let ghost gb = buf@;
            let cur = buf[j];
            let nv = cur.wrapping_add(delta);
            buf.set(j, nv);
            proof {
                let jj0 = j;
                assert(1 <= jj0 - (jj0 & ((jj0 - 1) as usize)) <= jj0) by (bit_vector)
                    requires
                        jj0 >= 1,
                ;
            }
            let next = j + (j - (j & (j - 1)));
            proof {
                assert(next > j);
                assert(st(j) <= i < j);
                assert(ssum(newv, st(j) as int, j as int) == ssum(oldv, st(j) as int, j as int)
                    + delta) by {
                    lemma_ssum_update_inside(oldv, i as int, delta as int, st(j) as int, j as int);
                }
                lemma_ssum_nonneg(oldv, st(j) as int, j as int);
                lemma_m64_add(ssum(oldv, st(j) as int, j as int), delta as int);
                assert(nv == m64(ssum(newv, st(j) as int, j as int)));
                // the next slot on the path covers the cell again, and no
                // slot strictly between covers it
                let jj = j;
                assert((jj & ((jj - 1) as usize)) < jj) by (bit_vector)
                    requires
                        jj >= 1,
                ;
                let nx = jj + (jj - (jj & ((jj - 1) as usize)));
                assert(st(((jj + (jj - (jj & ((jj - 1) as usize)))) as usize)) <= (jj & ((jj
                    - 1) as usize))) by (bit_vector)
                    requires
                        jj >= 1,
                ;
                assert forall|t: usize| jj < t && t < nx implies !((#[trigger] st(t)) <= i && i
                    < t) by {
                    assert(jj < t && t < jj + (jj - (jj & ((jj - 1) as usize))) ==> (t & ((t
                        - 1) as usize)) >= jj) by (bit_vector)
                        requires
                            jj >= 1,
                    ;
                }
            }
            j = next;
        }
        self.buf = buf;
        self.vals = Ghost(newv);
        proof {
            assert forall|t: usize| 1 <= t < n && !(st(t) <= i < t) implies self.buf@[t as int]
                == m64(ssum(newv, #[trigger] st(t) as int, t as int)) by {
                lemma_ssum_update_outside(oldv, i as int, oldv[i as int] + delta, st(t) as int, t as int);
            }
        }
    }

    /// The reduced sum of cells `[0, k)`.
    fn prefix(&self, k: usize) -> (r: u64)
        requires
            self.wf(),
            k <= self@.len(),
        ensures
            r == m64(ssum(self@, 0, k as int)),
    {
        let mut ans: u64 = 0;
        let mut i = k;
        proof {
            assert(ssum(self@, k as int, k as int) == 0);
            assert(m64(0) == 0u64) by {
                lemma_small_mod(0nat, 0x1_0000_0000_0000_0000nat);
            }
        }
        while i > 0
            invariant
                self.wf(),
                k <= self@.len(),
                i <= k,
                ans == m64(ssum(self@, i as int, k as int)),
            decreases i,
        {
            let cur = self.buf[i];
            let prev = i & (i - 1);
            proof {
                let jj = i;
                assert((jj & ((jj - 1) as usize)) < jj) by (bit_vector)
                    requires
                        jj >= 1,
                ;
                assert(cur == m64(ssum(self@, st(i) as int, i as int)));
                lemma_ssum_split(self@, prev as int, i as int, k as int);
                lemma_ssum_nonneg(self@, prev as int, i as int);
                lemma_ssum_nonneg(self@, i as int, k as int);
                lemma_m64_add(ssum(self@, prev as int, i as int), ssum(self@, i as int, k as int));
            }
            ans = cur.wrapping_add(ans);
            i = prev;
        }
        ans
    }

    /// The reduced sum of the cells of `[left, right)`.
    pub fn query(&self, left: usize, right: usize) -> (r: u64)
        requires
            self.wf(),
            left <= right <= self@.len(),
        ensures
            r == m64(ssum(self@, left as int, right as int)),
    {
        let hi = self.prefix(right);
        let lo = self.prefix(left);
        proof {
            lemma_ssum_split(self@, 0, left as int, right as int);
            lemma_ssum_nonneg(self@, 0, left as int);
            lemma_ssum_nonneg(self@, left as int, right as int);
            lemma_m64_sub(ssum(self@, 0, right as int), ssum(self@, 0, left as int));
        }
        hi.wrapping_sub(lo)
    }
}

proof fn lemma_ssum_zero(s: Seq<int>, a: int, b: int)
    requires
        forall|k: int| 0 <= k < s.len() ==> s[k] == 0,
    ensures
        ssum(s, a, b) == 0,
    decreases b - a,
{
    if !(a >= b || a < 0 || b > s.len()) {
        lemma_ssum_zero(s, a + 1, b);
    }
}

} // verus!
