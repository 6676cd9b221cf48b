use vstd::prelude::*;

verus! {

/// A disjoint-set union over the elements `0 .. n`, with path
/// compression.  Roots are canonical representatives: the contract of
/// every operation is stated over [`DSU::rep`], and two elements are
/// connected exactly when their representatives are equal.
///
/// A parent pointer always moves strictly downward (`par[i] <= i`), so
/// the smallest element of a component is its root.
pub struct DSU {
    par: Vec<usize>,
}

spec fn par_ok(p: Seq<usize>) -> bool {
    forall|i: int| 0 <= i < p.len() ==> (#[trigger] p[i]) <= i
}

/// The root reached from `x` by following parent links.
spec fn root_of(p: Seq<usize>, x: int) -> int
    decreases x,
{
    if 0 <= x < p.len() && par_ok(p) {
        if p[x] == x {
            x
        } else {
            root_of(p, p[x] as int)
        }
    } else {
        x
    }
}

proof fn lemma_root_is_root(p: Seq<usize>, x: int)
    requires
        par_ok(p),
        0 <= x < p.len(),
    ensures
        0 <= root_of(p, x) <= x,
        p[root_of(p, x)] == root_of(p, x),
    decreases x,
{
    if p[x] != x {
        lemma_root_is_root(p, p[x] as int);
    }
}

/// Redirecting `x` to its own root leaves every element's root as it
/// was.
proof fn lemma_compress(p: Seq<usize>, x: int, q: Seq<usize>, z: int)
    requires
        par_ok(p),
        0 <= x < p.len(),
        q == p.update(x, root_of(p, x) as usize),
        0 <= z < p.len(),
    ensures
        par_ok(q),
        root_of(q, z) == root_of(p, z),
    decreases z,
{
    lemma_root_is_root(p, x);
    assert(par_ok(q));
    if q[z] == z {
        assert(p[z] == z || z == x);
    } else {
        if z == x {
            lemma_compress(p, x, q, root_of(p, x));
        } else {
            lemma_compress(p, x, q, p[z] as int);
        }
    }
}

/// Redirecting the root `rx` to the root `ry` merges exactly the
/// component of `rx` into that of `ry`.
proof fn lemma_union(p: Seq<usize>, rx: int, ry: int, q: Seq<usize>, z: int)
    requires
        par_ok(p),
        0 <= rx < p.len(),
        0 <= ry < rx,
        p[rx] == rx,
        p[ry] == ry,
        q == p.update(rx, ry as usize),
        0 <= z < p.len(),
    ensures
        par_ok(q),
        root_of(q, z) == if root_of(p, z) == rx {
            ry
        } else {
            root_of(p, z)
        },
    decreases z,
{
    assert(par_ok(q));
    if q[z] == z {
        assert(p[z] == z && z != rx);
    } else {
        if z == rx {
            assert(q[z] == ry);
            assert(root_of(q, ry) == ry) by {
                lemma_union(p, rx, ry, q, ry);
            }
        } else {
            lemma_union(p, rx, ry, q, p[z] as int);
        }
    }
}

impl DSU {
    #[verifier::type_invariant]
    spec fn wf(self) -> bool {
        par_ok(self.par@)
    }

    /// The number of elements the structure was built over.
    pub closed spec fn n(self) -> nat {
        self.par@.len()
    }

    /// The canonical representative of `x`'s component.
    pub closed spec fn rep(self, x: int) -> int {
        root_of(self.par@, x)
    }

    pub fn new(n: usize) -> (s: Self)
        ensures
            s.n() == n,
            forall|x: int| 0 <= x < n ==> s.rep(x) == x,
    {
        let mut par: Vec<usize> = Vec::new();
        let mut i: usize = 0;
        while i < n
            invariant
                i <= n,
                par@.len() == i,
                forall|j: int| 0 <= j < i ==> par@[j] == j,
            decreases n - i,
        {
            par.push(i);
            i = i + 1;
        }
        let s = DSU { par };
        proof {
            assert forall|x: int| 0 <= x < n implies s.rep(x) == x by {}
        }
        s
    }

    fn find_inner(par: &mut Vec<usize>, x: usize) -> (r: usize)
        requires
            par_ok(old(par)@),
            x < old(par)@.len(),
        ensures
            par_ok(final(par)@),
            final(par)@.len() == old(par)@.len(),
            r == root_of(old(par)@, x as int),
            forall|z: int|
                0 <= z < old(par)@.len() ==> root_of(final(par)@, z) == root_of(old(par)@, z),
            forall|z: int| x < z < old(par)@.len() ==> final(par)@[z] == old(par)@[z],
        decreases x,
    {
        proof {
            lemma_root_is_root(par@, x as int);
        }
        let p = par[x];
        if p == x {
            return x;
        }
        let r = Self::find_inner(par, p);
        let ghost mid = par@;
        proof {
            assert(mid[x as int] == p);
            assert(root_of(mid, x as int) == r);
            lemma_root_is_root(mid, x as int);
        }
        par.set(x, r);
        proof {
            assert(par@ == mid.update(x as int, root_of(mid, x as int) as usize));
            assert forall|z: int| 0 <= z < par@.len() implies root_of(par@, z) == root_of(
                mid,
                z,
            ) by {
                lemma_compress(mid, x as int, par@, z);
            }
        }
        r
    }

    /// Finds the representative of `x`, compressing the path behind it.
    pub fn find(&mut self, x: usize) -> (r: usize)
        requires
            x < old(self).n(),
        ensures
            r == old(self).rep(x as int),
            final(self).n() == old(self).n(),
            forall|z: int| 0 <= z < old(self).n() ==> final(self).rep(z) == old(self).rep(z),
    {
        proof {
            use_type_invariant(&*self);
        }
        let mut tmp: Vec<usize> = Vec::new();
        core::mem::swap(&mut tmp, &mut self.par);
        let r = Self::find_inner(&mut tmp, x);
        self.par = tmp;
        r
    }

    /// Joins the components of `x` and `y`; returns whether they were
    /// separate.
    pub fn unite(&mut self, x: usize, y: usize) -> (r: bool)
        requires
            x < old(self).n(),
            y < old(self).n(),
        ensures
            final(self).n() == old(self).n(),
            r == (old(self).rep(x as int) != old(self).rep(y as int)),
            forall|z: int|
                0 <= z < old(self).n() ==> final(self).rep(z) == (if old(self).rep(z) == old(
                    self,
                ).rep(x as int) || old(self).rep(z) == old(self).rep(y as int) {
                    final(self).rep(x as int)
                } else {
                    old(self).rep(z)
                }),
    {
        let px = self.find(x);
        let py = self.find(y);
        if px == py {
            return false;
        }
        proof {
            use_type_invariant(&*self);
            assert(root_of(self.par@, x as int) == px);
            assert(root_of(self.par@, y as int) == py);
            lemma_root_is_root(self.par@, x as int);
            lemma_root_is_root(self.par@, y as int);
        }
        let (hi, lo) = if px > py {
            (px, py)
        } else {
            (py, px)
        };
        let ghost mid = self.par@;
        let mut tmp: Vec<usize> = Vec::new();
        core::mem::swap(&mut tmp, &mut self.par);
        tmp.set(hi, lo);
        proof {
            assert(par_ok(tmp@));
        }
        self.par = tmp;
        proof {
            assert(self.par@ == mid.update(hi as int, lo as usize));
            assert forall|z: int| 0 <= z < mid.len() implies root_of(self.par@, z) == (
            if root_of(mid, z) == hi as int {
                lo as int
            } else {
                root_of(mid, z)
            }) by {
                lemma_union(mid, hi as int, lo as int, self.par@, z);
            }
        }
        true
    }

    /// Whether `x` and `y` are in one component; compresses both paths.
    pub fn is_connected(&mut self, x: usize, y: usize) -> (r: bool)
        requires
            x < old(self).n(),
            y < old(self).n(),
        ensures
            final(self).n() == old(self).n(),
            r == (old(self).rep(x as int) == old(self).rep(y as int)),
            forall|z: int| 0 <= z < old(self).n() ==> final(self).rep(z) == old(self).rep(z),
    {
        let px = self.find(x);
        let py = self.find(y);
        px == py
    }

    /// The number of components: the count of elements that are their
    /// own representative.
    pub fn component_num(&self) -> (r: usize)
        ensures
            r == Set::new(|z: int| 0 <= z < self.n() && self.rep(z) == z).len(),
    {
        proof {
            use_type_invariant(&*self);
        }
        let mut count: usize = 0;
        let mut i: usize = 0;
        proof {
            assert(Set::new(|z: int| 0 <= z < 0 && self.rep(z) == z) =~= Set::<int>::empty());
        }
        while i < self.par.len()
            invariant
                par_ok(self.par@),
                i <= self.par@.len(),
                count == Set::new(|z: int| 0 <= z < i && self.rep(z) == z).len(),
                count <= i,
            decreases self.par@.len() - i,
        {
            let ghost pre = Set::new(|z: int| 0 <= z < i && self.rep(z) == z);
            proof {
                vstd::set_lib::lemma_int_range(0, i as int);
                assert(Set::new(|z: int| 0 <= z < i) =~= vstd::set_lib::set_int_range(
                    0,
                    i as int,
                ));
                assert(pre.subset_of(Set::new(|z: int| 0 <= z < i)));
                vstd::set_lib::lemma_len_subset(
                    pre,
                    Set::new(|z: int| 0 <= z < i),
                );
            }
            let p = self.par[i];
            proof {
                assert(self.rep(i as int) == i <==> p == i) by {
                    lemma_root_is_root(self.par@, i as int);
                }
            }
            if p == i {
                count = count + 1;
                proof {
                    assert(Set::new(|z: int| 0 <= z < i + 1 && self.rep(z) == z) =~= pre.insert(
                        i as int,
                    ));
                }
            } else {
                proof {
                    assert(Set::new(|z: int| 0 <= z < i + 1 && self.rep(z) == z) =~= pre);
                }
            }
            i = i + 1;
        }
        proof {
            assert(Set::new(|z: int| 0 <= z < self.n() && self.rep(z) == z) =~= Set::new(
                |z: int| 0 <= z < self.par@.len() && self.rep(z) == z,
            ));
        }
        count
    }
}

} // verus!
