use vstd::prelude::*;

verus! {

/// A static sparse table answering range-minimum queries over a fixed
/// array of 32-bit integers in constant time, built once in
/// `n log n` space.
///
/// The view is the underlying array; `query(i, j)` returns the minimum
/// of `[i, j)`, computed from two precomputed power-of-two windows that
/// overlap, which the idempotent minimum allows.
pub struct SparseTable {
    tab: Vec<Vec<i32>>,
    data: Ghost<Seq<i32>>,
}

/// Two to the `e`-th power.
pub open spec fn pw2(e: nat) -> nat
    decreases e,
{
    if e == 0 {
        1
    } else {
        2 * pw2((e - 1) as nat)
    }
}

/// The least element of the cells `[a, b)`.
pub open spec fn smin(s: Seq<i32>, a: int, b: int) -> int
    decreases b - a,
{
    if b <= a + 1 {
        s[a] as int
    } else if s[a] as int <= smin(s, a + 1, b) {
        s[a] as int
    } else {
        smin(s, a + 1, b)
    }
}

/// The minimum of a range is one of its cells and a lower bound of all
/// of them.
proof fn lemma_smin_char(s: Seq<i32>, a: int, b: int)
    requires
        0 <= a < b <= s.len(),
    ensures
        exists|t: int| a <= t < b && s[t] as int == smin(s, a, b),
        forall|t: int| a <= t < b ==> smin(s, a, b) <= (#[trigger] s[t]) as int,
    decreases b - a,
{
    if b <= a + 1 {
        assert(s[a] as int == smin(s, a, b));
    } else {
        lemma_smin_char(s, a + 1, b);
        if s[a] as int <= smin(s, a + 1, b) {
            assert(s[a] as int == smin(s, a, b));
        } else {
            let t = choose|t: int| a + 1 <= t < b && s[t] as int == smin(s, a + 1, b);
            assert(s[t] as int == smin(s, a, b));
        }
    }
}

impl SparseTable {
    /// Well-formedness: one row per cell, each row holding the minima
    /// of the power-of-two windows starting there, as far as they fit.
    pub closed spec fn wf(self) -> bool {
        &&& self.tab@.len() == self.data@.len()
        &&& forall|i: int, e: int|
            0 <= i < self.data@.len() && 0 <= e < self.tab@[i]@.len() && i + #[trigger] pw2(
                e as nat,
            ) <= self.data@.len() ==> (#[trigger] self.tab@[i])@[e] as int == smin(
                self.data@,
                i,
                i + pw2(e as nat),
            )
        &&& forall|i: int, e: int|
            0 <= i < self.data@.len() && 0 <= e && #[trigger] pw2(e as nat) <= self.data@.len()
                ==> e < (#[trigger] self.tab@[i])@.len()
    }

    /// The underlying array.
    pub closed spec fn view(self) -> Seq<i32> {
        self.data@
    }

    /// The exponent of the largest power of two that is at most `n`.
    fn ilog(n: usize) -> (d: usize)
        requires
            n >= 1,
        ensures
            pw2(d as nat) <= n < pw2(d as nat + 1),
            d <= n,
    {
        let mut d: usize = 0;
        let mut p: usize = 1;
        while p <= n / 2
            invariant
                n >= 1,
                p == pw2(d as nat),
                p <= n,
                d < p || d == 0,
            decreases n - p,
        {
            p = p * 2;
            d = d + 1;
            proof {
                assert(pw2(d as nat) == 2 * pw2((d - 1) as nat));
            }
        }
        proof {
            assert(2 * p > n);
            assert(pw2(d as nat + 1) == 2 * pw2(d as nat));
        }
        d
    }

    /// Builds the table over a nonempty array.
    pub fn new(data: &[i32]) -> (s: Self)
        requires
            data@.len() >= 1,
            data@.len() < usize::MAX / 4,
        ensures
            s.wf(),
            s@ == data@,
    {
        let n = data.len();
        let d = Self::ilog(n);
        let mut tab: Vec<Vec<i32>> = Vec::new();
        let mut i: usize = 0;
        // one row per start cell, seeded with the width-one window
        while i < n
            invariant
                n == data@.len(),
                d <= n < usize::MAX / 4,
                i <= n,
                tab@.len() == i,
                forall|t: int|
                    0 <= t < i ==> (#[trigger] tab@[t])@.len() == d + 1 && tab@[t]@[0] == data@[t],
            decreases n - i,
        {
            let mut row: Vec<i32> = Vec::new();
            let mut e: usize = 0;
            let x = data[i];
            while e < d + 1
                invariant
                    d <= n < usize::MAX / 4,
                    e <= d + 1,
                    row@.len() == e,
                    forall|q: int| 0 <= q < e ==> row@[q] == x,
                decreases d + 1 - e,
            {
                row.push(x);
                e = e + 1;
            }
            tab.push(row);
            i = i + 1;
        }
        let ghost gdata = data@;
        // widen the windows, one doubling at a time
        let mut e: usize = 1;
        let mut half: usize = 1;
        while e < d + 1
            invariant
                n == gdata.len(),
                1 <= e <= d + 1,
                d <= n < usize::MAX / 4,
                pw2(d as nat) <= n,
                half == pw2((e - 1) as nat),
                half <= n,
                tab@.len() == n,
                forall|t: int| 0 <= t < n ==> (#[trigger] tab@[t])@.len() == d + 1,
                forall|t: int, f: int|
                    0 <= t < n && 0 <= f < e && t + #[trigger] pw2(f as nat) <= n ==> (
                    #[trigger] tab@[t])@[f] as int == smin(gdata, t, t + pw2(f as nat)),
            decreases d + 1 - e,
        {
            proof {
                assert(pw2(e as nat) == 2 * pw2((e - 1) as nat));
                lemma_pw2_mono(d as nat, e as nat);
                lemma_pw2_pos((e - 1) as nat);
            }
            let width = 2 * half;
            let mut i2: usize = 0;
            while i2 < n
                invariant
                    n == gdata.len(),
                    1 <= e <= d,
                    d <= n < usize::MAX / 4,
                    pw2(d as nat) <= n,
                    half >= 1,
                    half == pw2((e - 1) as nat),
                    width == 2 * half,
                    width == pw2(e as nat),
                    half <= n,
                    i2 <= n,
                    tab@.len() == n,
                    forall|t: int| 0 <= t < n ==> (#[trigger] tab@[t])@.len() == d + 1,
                    forall|t: int, f: int|
                        0 <= t < n && 0 <= f < e && t + #[trigger] pw2(f as nat) <= n ==> (
                        #[trigger] tab@[t])@[f] as int == smin(gdata, t, t + pw2(f as nat)),
                    forall|t: int|
                        0 <= t < i2 && t + pw2(e as nat) <= n ==> (#[trigger] tab@[t])@[e as int]
                            as int == smin(gdata, t, t + pw2(e as nat)),
                decreases n - i2,
            {
                if width <= n && i2 <= n - width {
                    let a = tab[i2][e - 1];
                    let b = tab[i2 + half][e - 1];
                    let ghost pre = tab@;
                    let m = if a <= b {
                        a
                    } else {
                        b
                    };
                    proof {
                        lemma_smin_concat(gdata, i2 as int, i2 + half as int, i2 + width as int);
                    }
                    let mut row = Vec::new();
                    core::mem::swap(&mut row, &mut tab[i2]);
                    row.set(e, m);
                    core::mem::swap(&mut row, &mut tab[i2]);
                    proof {
                        assert(tab@[i2 as int]@ =~= pre[i2 as int]@.update(e as int, m));
                        assert(forall|t: int|
                            0 <= t < n && t != i2 ==> #[trigger] tab@[t] == pre[t]);
                    }
                }
                i2 = i2 + 1;
            }
            proof {
                lemma_pw2_mono(d as nat, e as nat);
            }
            e = e + 1;
            half = width;
        }
        let s = SparseTable { tab, data: Ghost(gdata) };
        proof {
            assert forall|i3: int, e3: int|
                0 <= i3 < s.data@.len() && 0 <= e3 && #[trigger] pw2(e3 as nat)
                <= s.data@.len() implies e3 < (#[trigger] s.tab@[i3])@.len() by {
                if e3 > d {
                    lemma_pw2_mono(e3 as nat, d as nat + 1);
                }
            }
        }
        s
    }

    /// The least cell value of `[i, j)`.
    pub fn query(&self, i: usize, j: usize) -> (r: i32)
        requires
            self.wf(),
            i < j <= self@.len(),
        ensures
            r as int == smin(self@, i as int, j as int),
    {
        let d = Self::ilog(j - i);
        let p = Self::pow(d);
        let m = j - p;
        proof {
            assert(pw2(d as nat) <= j - i);
            assert(i + pw2(d as nat) <= self@.len());
            assert(m + pw2(d as nat) <= self@.len());
            assert(m <= i + pw2(d as nat));
            assert(m >= i);
        }
        let a = self.tab[i][d];
        let b = self.tab[m][d];
        proof {
            lemma_smin_cover(self@, i as int, j as int, pw2(d as nat) as int);
        }
        if a <= b {
            a
        } else {
            b
        }
    }

    /// Two to the `d`-th power, as a machine word.
    fn pow(d: usize) -> (r: usize)
        requires
            pw2(d as nat) < usize::MAX,
        ensures
            r == pw2(d as nat),
    {
        let mut r: usize = 1;
        let mut e: usize = 0;
        while e < d
            invariant
                e <= d,
                r == pw2(e as nat),
                pw2(d as nat) < usize::MAX,
            decreases d - e,
        {
            proof {
                lemma_pw2_mono(d as nat, e as nat + 1);
                assert(pw2(e as nat + 1) == 2 * pw2(e as nat));
            }
            r = r * 2;
            e = e + 1;
        }
        r
    }
}

/// Powers of two grow with the exponent.
proof fn lemma_pw2_mono(a: nat, b: nat)
    requires
        b <= a,
    ensures
        pw2(b) <= pw2(a),
        pw2(b) >= 1,
    decreases a,
{
    if b < a {
        lemma_pw2_mono((a - 1) as nat, b);
    } else {
        lemma_pw2_pos(b);
    }
}

proof fn lemma_pw2_pos(a: nat)
    ensures
        pw2(a) >= 1,
    decreases a,
{
    if a > 0 {
        lemma_pw2_pos((a - 1) as nat);
    }
}

/// The minimum of a range is the lesser of the minima of two adjacent
/// parts.
proof fn lemma_smin_concat(s: Seq<i32>, a: int, b: int, c: int)
    requires
        0 <= a < b < c <= s.len(),
    ensures
        smin(s, a, c) == (if smin(s, a, b) <= smin(s, b, c) {
            smin(s, a, b)
        } else {
            smin(s, b, c)
        }),
    decreases b - a,
{
    if b == a + 1 {
    } else {
        lemma_smin_concat(s, a + 1, b, c);
    }
}

/// The minimum of a range is the lesser of the minima of two
/// equal-width windows that cover it from both ends.
proof fn lemma_smin_cover(s: Seq<i32>, i: int, j: int, p: int)
    requires
        0 <= i < j <= s.len(),
        1 <= p <= j - i,
        2 * p >= j - i,
    ensures
        smin(s, i, j) == (if smin(s, i, i + p) <= smin(s, j - p, j) {
            smin(s, i, i + p)
        } else {
            smin(s, j - p, j)
        }),
{
    let m = j - p;
    lemma_smin_char(s, i, i + p);
    lemma_smin_char(s, m, j);
    lemma_smin_char(s, i, j);
    let lo = if smin(s, i, i + p) <= smin(s, m, j) {
        smin(s, i, i + p)
    } else {
        smin(s, m, j)
    };
    assert forall|t: int| i <= t < j implies lo <= (#[trigger] s[t]) as int by {
        if t < i + p {
        } else {
            assert(m <= t < j);
        }
    }
    let w1 = choose|t: int| i <= t < i + p && s[t] as int == smin(s, i, i + p);
    let w2 = choose|t: int| m <= t < j && s[t] as int == smin(s, m, j);
    assert(exists|t: int| i <= t < j && s[t] as int == lo) by {
        if smin(s, i, i + p) <= smin(s, m, j) {
            assert(i <= w1 < j && s[w1] as int == lo);
        } else {
            assert(i <= w2 < j && s[w2] as int == lo);
        }
    }
    let wt = choose|t: int| i <= t < j && s[t] as int == smin(s, i, j);
}

} // verus!
