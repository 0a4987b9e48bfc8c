use vstd::prelude::*;
use vstd::set_lib::lemma_int_range;
use vstd::set_lib::lemma_len_subset;
use vstd::set_lib::set_int_range;

use crate::error::PercolationError;

verus! {

broadcast use vstd::set::group_set_axioms;

/// Do `a` and `b` have the same representative under the map `m`?
pub open spec fn rep_eq(m: Map<int, int>, a: int, b: int) -> bool {
    m[a] == m[b]
}

/// The elements of the universe `0..n` whose representative under `m` is `r`.
pub open spec fn class_of(m: Map<int, int>, n: int, r: int) -> Set<int> {
    Set::new(|x: int| 0 <= x < n && m[x] == r)
}

/// `m2` is the partition `m1` with the classes of `p` and `q` merged and
/// everything else untouched: two elements are equivalent under `m2` exactly
/// when they already were under `m1`, or when one side sits with `p` and the
/// other with `q`.
pub open spec fn merged(m1: Map<int, int>, m2: Map<int, int>, n: int, p: int, q: int) -> bool {
    forall|x: int, y: int| #![trigger m2[x], m2[y]]
        0 <= x < n && 0 <= y < n ==> (rep_eq(m2, x, y) <==> (rep_eq(m1, x, y) || (rep_eq(
            m1,
            x,
            p,
        ) && rep_eq(m1, y, q)) || (rep_eq(m1, x, q) && rep_eq(m1, y, p))))
}

/// A disjoint-set (union-find) structure over a fixed universe `0..n` of
/// integer-labelled elements, with union by size and path halving.
///
/// `id[x]` is the parent of `x`; a root satisfies `id[x] == x`. `sz[x]` is
/// meaningful only at a root, where it counts the elements of that tree.
/// The ghost map `repr` assigns every element the root of its tree; it is the
/// abstraction the contracts speak about. The ghost map `depth` strictly
/// decreases along parent pointers and justifies termination of root lookup.
pub struct WeightedUnionFind {
    id: Vec<usize>,
    sz: Vec<usize>,
    repr: Ghost<Map<int, int>>,
    depth: Ghost<Map<int, nat>>,
}

impl WeightedUnionFind {
    /// The number of elements in the universe.
    pub closed spec fn n(&self) -> int {
        self.id@.len() as int
    }

    /// The representative of each element: the abstract partition.
    pub closed spec fn repr_map(&self) -> Map<int, int> {
        self.repr@
    }

    /// Are `a` and `b` in the same set?
    pub open spec fn same(&self, a: int, b: int) -> bool {
        rep_eq(self.repr_map(), a, b)
    }

    /// Structural well-formedness: parent pointers stay inside the universe
    /// and inside their class, every class is represented by its unique root,
    /// depth decreases strictly towards the root, and the size stored at a
    /// root is the cardinality of its class.
    pub closed spec fn inv(&self) -> bool {
        let n = self.n();
        let id = self.id@;
        let m = self.repr@;
        let d = self.depth@;
        &&& self.sz@.len() == id.len()
        &&& forall|x: int| #[trigger] m.dom().contains(x) <==> 0 <= x < n
        &&& forall|x: int| #[trigger] d.dom().contains(x) <==> 0 <= x < n
        &&& forall|x: int| 0 <= x < n ==> (#[trigger] id[x] as int) < n
        &&& forall|x: int| 0 <= x < n ==> 0 <= #[trigger] m[x] < n
        &&& forall|x: int| 0 <= x < n ==> m[#[trigger] id[x] as int] == m[x]
        &&& forall|x: int| 0 <= x < n ==> #[trigger] id[m[x]] as int == m[x]
        &&& forall|x: int| 0 <= x < n && #[trigger] id[x] as int == x ==> m[x] == x
        &&& forall|x: int| 0 <= x < n && #[trigger] id[x] as int != x ==> d[id[x] as int] < d[x]
        &&& forall|x: int|
            0 <= x < n && #[trigger] id[x] as int == x ==> self.sz@[x] as int == class_of(
                m,
                n,
                x,
            ).len()
    }

    /// Constructs `n` singleton sets: every element is its own representative.
    pub fn new(n: usize) -> (r: Result<Self, PercolationError>)
        ensures
            match r {
                Ok(uf) => {
                    &&& n >= 1
                    &&& uf.inv()
                    &&& uf.n() == n as int
                    &&& forall|x: int| 0 <= x < n as int ==> #[trigger] uf.repr_map()[x] == x
                },
                Err(e) => n < 1 && e == PercolationError::InvalidSize,
            },
    {
        if n < 1 {
            return Err(PercolationError::InvalidSize);
        }
        let mut id: Vec<usize> = Vec::new();
        let mut k: usize = 0;
        while k < n
            invariant
                k <= n,
                id@.len() == k as int,
                forall|x: int| 0 <= x < k as int ==> #[trigger] id@[x] as int == x,
            decreases n - k,
        {
            id.push(k);
            k = k + 1;
        }
        let mut sz: Vec<usize> = Vec::new();
        let mut k2: usize = 0;
        while k2 < n
            invariant
                k2 <= n,
                sz@.len() == k2 as int,
                forall|x: int| 0 <= x < k2 as int ==> #[trigger] sz@[x] as int == 1,
            decreases n - k2,
        {
            sz.push(1);
            k2 = k2 + 1;
        }
        let ghost m = Map::<int, int>::new(|x: int| 0 <= x < n as int, |x: int| x);
        let ghost d = Map::<int, nat>::new(|x: int| 0 <= x < n as int, |x: int| 0nat);
        let uf = WeightedUnionFind { id, sz, repr: Ghost(m), depth: Ghost(d) };
        proof {
            assert forall|x: int|
                0 <= x < uf.n() && #[trigger] uf.id@[x] as int == x implies uf.sz@[x] as int
                == class_of(uf.repr@, uf.n(), x).len() by {
                assert(class_of(uf.repr@, uf.n(), x) =~= Set::empty().insert(x));
            }
        }
        Ok(uf)
    }

    /// Walks from `i` to the root of its tree, halving the path as it goes:
    /// each visited element is re-pointed to its grandparent. The partition
    /// is untouched; the returned element is the representative of `i`.
    fn root(&mut self, i: usize) -> (r: usize)
        requires
            old(self).inv(),
            (i as int) < old(self).n(),
        ensures
            final(self).inv(),
            final(self).n() == old(self).n(),
            final(self).repr_map() == old(self).repr_map(),
            final(self).sz@ == old(self).sz@,
            r as int == old(self).repr_map()[i as int],
    {
        let mut cur: usize = i;
        while self.id[cur] != cur
            invariant
                self.inv(),
                self.n() == old(self).n(),
                self.repr_map() == old(self).repr_map(),
                self.sz@ == old(self).sz@,
                (cur as int) < self.n(),
                self.repr@[cur as int] == old(self).repr@[i as int],
            decreases self.depth@[cur as int],
        {
            let p = self.id[cur];
            let g = self.id[p];
            proof {
                assert(self.repr@[p as int] == self.repr@[cur as int]);
                assert(self.repr@[g as int] == self.repr@[p as int]);
                assert(self.depth@[p as int] < self.depth@[cur as int]);
                if self.id@[p as int] as int != p as int {
                    assert(self.depth@[g as int] < self.depth@[p as int]);
                } else {
                    assert(g == p);
                }
                assert(self.depth@[g as int] < self.depth@[cur as int]);
            }
            let ghost id0 = self.id@;
            self.id.set(cur, g);
            proof {
                let n = self.n();
                let id1 = self.id@;
                let m = self.repr@;
                let d = self.depth@;
                assert forall|x: int| 0 <= x < n implies m[#[trigger] id1[x] as int] == m[x] by {
                    if x != cur as int {
                        assert(id1[x] == id0[x]);
                    }
                }
                assert forall|x: int| 0 <= x < n implies #[trigger] id1[m[x]] as int == m[x] by {
                    assert(id0[m[x]] as int == m[x]);
                    assert(m[x] != cur as int);
                }
                assert forall|x: int|
                    0 <= x < n && #[trigger] id1[x] as int == x implies m[x] == x by {
                    assert(x != cur as int);
                    assert(id0[x] == id1[x]);
                }
                assert forall|x: int|
                    0 <= x < n && #[trigger] id1[x] as int != x implies d[id1[x] as int] < d[x] by {
                    if x != cur as int {
                        assert(id1[x] == id0[x]);
                    }
                }
                assert forall|x: int|
                    0 <= x < n && #[trigger] id1[x] as int == x implies self.sz@[x] as int
                    == class_of(m, n, x).len() by {
                    assert(x != cur as int);
                    assert(id0[x] == id1[x]);
                }
            }
            cur = g;
        }
        proof {
            assert(self.repr@[cur as int] == cur as int);
        }
        cur
    }

    /// Returns the representative of `i`'s set. Two elements have equal
    /// `find` results exactly when they are in the same set.
    pub fn find(&mut self, i: usize) -> (r: usize)
        requires
            old(self).inv(),
            (i as int) < old(self).n(),
        ensures
            final(self).inv(),
            final(self).n() == old(self).n(),
            final(self).repr_map() == old(self).repr_map(),
            r as int == old(self).repr_map()[i as int],
            (r as int) < old(self).n(),
    {
        self.root(i)
    }

    /// Are `p` and `q` in the same set?
    pub fn connected(&mut self, p: usize, q: usize) -> (r: bool)
        requires
            old(self).inv(),
            (p as int) < old(self).n(),
            (q as int) < old(self).n(),
        ensures
            final(self).inv(),
            final(self).n() == old(self).n(),
            final(self).repr_map() == old(self).repr_map(),
            r == old(self).same(p as int, q as int),
    {
        let rp = self.root(p);
        let rq = self.root(q);
        rp == rq
    }

    /// Merges the sets containing `p` and `q`; a no-op if they are already
    /// connected. The root of the smaller tree is attached under the root of
    /// the larger one (on ties the second argument's root is attached under
    /// the first's), and the surviving root's size absorbs the other's.
    pub fn union(&mut self, p: usize, q: usize)
        requires
            old(self).inv(),
            (p as int) < old(self).n(),
            (q as int) < old(self).n(),
        ensures
            final(self).inv(),
            final(self).n() == old(self).n(),
            merged(old(self).repr_map(), final(self).repr_map(), old(self).n(), p as int, q as int),
    {
        let i = self.root(p);
        let j = self.root(q);
        if i == j {
            proof {
                let m = self.repr@;
                assert forall|x: int, y: int| #![trigger m[x], m[y]]
                    0 <= x < self.n() && 0 <= y < self.n() implies (rep_eq(m, x, y) <==> (rep_eq(
                    m,
                    x,
                    y,
                ) || (rep_eq(m, x, p as int) && rep_eq(m, y, q as int)) || (rep_eq(m, x, q as int)
                    && rep_eq(m, y, p as int)))) by {}
            }
            return ;
        }
        // Reading the length binds the universe size by usize::MAX, which
        // bounds the size sum below.
        let _universe: usize = self.id.len();
        let ghost n = self.n();
        let ghost m0 = self.repr@;
        let ghost d0 = self.depth@;
        let ghost idpre = self.id@;
        let ghost szpre = self.sz@;
        proof {
            assert(self.id@[i as int] as int == i as int);
            assert(self.id@[j as int] as int == j as int);
            assert(m0[i as int] == i as int);
            assert(m0[j as int] == j as int);
            let ci = class_of(m0, n, i as int);
            let cj = class_of(m0, n, j as int);
            lemma_int_range(0, n);
            assert(ci.subset_of(set_int_range(0, n)));
            assert(cj.subset_of(set_int_range(0, n)));
            lemma_len_subset(ci, set_int_range(0, n));
            lemma_len_subset(cj, set_int_range(0, n));
            assert(ci.disjoint(cj));
            lemma_disjoint_union_len(ci, cj);
            assert(ci.union(cj).subset_of(set_int_range(0, n)));
            lemma_len_subset(ci.union(cj), set_int_range(0, n));
            assert(self.sz@[i as int] as int == ci.len() as int);
            assert(self.sz@[j as int] as int == cj.len() as int);
            assert(self.sz@[i as int] as int + self.sz@[j as int] as int <= n);
        }
        // Attach the root of the smaller tree (`a`) under the other (`b`).
        let (a, b) = if self.sz[i] < self.sz[j] {
            (i, j)
        } else {
            (j, i)
        };
        let sa = self.sz[a];
        let sb = self.sz[b];
        self.id.set(a, b);
        self.sz.set(b, sa + sb);
        self.repr = Ghost(
            Map::<int, int>::new(
                |x: int| 0 <= x < n,
                |x: int|
                    if m0[x] == a as int {
                        b as int
                    } else {
                        m0[x]
                    },
            ),
        );
        self.depth = Ghost(
            Map::<int, nat>::new(
                |x: int| 0 <= x < n,
                |x: int|
                    if m0[x] == a as int {
                        (d0[x] + d0[b as int] + 1) as nat
                    } else {
                        d0[x]
                    },
            ),
        );
        proof {
            let ai = a as int;
            let bi = b as int;
            let id1 = self.id@;
            let m1 = self.repr@;
            let d1 = self.depth@;
            assert(m0[ai] == ai && m0[bi] == bi && ai != bi);
            assert forall|x: int| 0 <= x < n implies m1[#[trigger] id1[x] as int] == m1[x] by {
                if x == ai {
                    assert(id1[x] as int == bi);
                    assert(m1[bi] == bi && m1[ai] == bi);
                } else {
                    assert(id1[x] == idpre[x]);
                }
            }
            assert forall|x: int| 0 <= x < n implies #[trigger] id1[m1[x]] as int == m1[x] by {
                if m0[x] == ai {
                    assert(m1[x] == bi);
                    assert(id1[bi] as int == bi);
                } else {
                    assert(m1[x] == m0[x]);
                    assert(m0[x] != ai);
                    assert(id1[m0[x]] == idpre[m0[x]]);
                }
            }
            assert forall|x: int| 0 <= x < n && #[trigger] id1[x] as int == x implies m1[x]
                == x by {
                assert(x != ai);
            }
            assert forall|x: int|
                0 <= x < n && #[trigger] id1[x] as int != x implies d1[id1[x] as int] < d1[x] by {
                if x == ai {
                    assert(id1[x] as int == bi);
                    assert(m0[bi] != ai);
                    assert(d1[bi] == d0[bi]);
                    assert(d1[ai] == d0[ai] + d0[bi] + 1);
                } else {
                    assert(id1[x] == idpre[x]);
                    let px = id1[x] as int;
                    assert(m0[px] == m0[x]);
                    assert(d0[px] < d0[x]);
                }
            }
            let ca = class_of(m0, n, ai);
            let cb = class_of(m0, n, bi);
            assert(ca.disjoint(cb));
            lemma_int_range(0, n);
            lemma_len_subset(ca, set_int_range(0, n));
            lemma_len_subset(cb, set_int_range(0, n));
            lemma_disjoint_union_len(ca, cb);
            assert forall|x: int|
                0 <= x < n && #[trigger] id1[x] as int == x implies self.sz@[x] as int == class_of(
                m1,
                n,
                x,
            ).len() by {
                if x == bi {
                    assert(class_of(m1, n, bi) =~= ca.union(cb));
                    assert(self.sz@[bi] as int == ca.len() + cb.len());
                } else {
                    assert(x != ai);
                    assert(idpre[x] as int == x);
                    assert(class_of(m1, n, x) =~= class_of(m0, n, x));
                    assert(self.sz@[x] == szpre[x]);
                }
            }
            let pi = p as int;
            let qi = q as int;
            assert(m0[pi] == i as int && m0[qi] == j as int);
            assert forall|x: int, y: int| #![trigger m1[x], m1[y]]
                0 <= x < n && 0 <= y < n implies (rep_eq(m1, x, y) <==> (rep_eq(m0, x, y) || (
            rep_eq(m0, x, pi) && rep_eq(m0, y, qi)) || (rep_eq(m0, x, qi) && rep_eq(
                m0,
                y,
                pi,
            )))) by {}
            assert(merged(m0, m1, n, pi, qi));
        }
    }
}

/// The cardinality of a union of disjoint finite sets is the sum of their
/// cardinalities.
proof fn lemma_disjoint_union_len<A>(s1: Set<A>, s2: Set<A>)
    requires
        s1.finite(),
        s2.finite(),
        s1.disjoint(s2),
    ensures
        s1.union(s2).len() == s1.len() + s2.len(),
    decreases s2.len(),
{
    if s2.is_empty() {
        assert(s1.union(s2) =~= s1);
    } else {
        let a = s2.choose();
        assert(s2.contains(a));
        assert(!s1.contains(a));
        assert(s1.disjoint(s2.remove(a)));
        lemma_disjoint_union_len(s1, s2.remove(a));
        assert(s1.union(s2) =~= s1.union(s2.remove(a)).insert(a));
        assert(!s1.union(s2.remove(a)).contains(a));
    }
}

} // verus!
