use vstd::prelude::*;

use crate::bignat::BigNat;

verus! {

// Agglomerative hierarchical clustering.  A dendrogram over n training
// samples is a sequence of n-1 merge steps; step i merges two live
// cluster ids (leaves are 0..n, step i creates id n+i).  Cutting the
// tree after a prefix of steps with a union-find structure yields the
// clusters; each cluster is labelled by majority vote of its members,
// and a query is classified by the cluster of its nearest training
// neighbour.

/// An exact nonnegative dissimilarity `num / den` with arbitrary
/// precision.
pub struct Dissim {
    pub num: BigNat,
    pub den: BigNat,
}

impl Dissim {
    pub open spec fn wf(&self) -> bool {
        self.den.value() >= 1
    }

    pub fn duplicate(&self) -> (r: Dissim)
        ensures
            r.num.value() == self.num.value(),
            r.den.value() == self.den.value(),
    {
        Dissim { num: self.num.duplicate(), den: self.den.duplicate() }
    }

    /// Strictly smaller dissimilarity, by cross-multiplication.
    pub fn lt(&self, other: &Dissim) -> (r: bool)
        ensures
            r == (self.num.value() * other.den.value() < other.num.value()
                * self.den.value()),
    {
        let a = self.num.mul(&other.den);
        let b = other.num.mul(&self.den);
        a.lt(&b)
    }

}

/// One agglomerative merge: the two cluster ids joined, the size of the
/// merged cluster, and the dissimilarity at which they were joined.
pub struct MergeStep {
    pub cluster1: usize,
    pub cluster2: usize,
    pub size: usize,
    pub dissim: Dissim,
}

/// Id `c` is not merged by any of the first `i` steps.
pub open spec fn fresh_at(steps: Seq<MergeStep>, c: int, i: int) -> bool {
    forall|j: int|
        0 <= j < i ==> (#[trigger] steps[j]).cluster1 != c && steps[j].cluster2 != c
}

/// Step `i` merges two distinct, live cluster ids below `n + i`.
pub open spec fn valid_step(steps: Seq<MergeStep>, n: int, i: int) -> bool {
    &&& steps[i].cluster1 != steps[i].cluster2
    &&& 0 <= steps[i].cluster1 < n + i
    &&& 0 <= steps[i].cluster2 < n + i
    &&& fresh_at(steps, steps[i].cluster1 as int, i)
    &&& fresh_at(steps, steps[i].cluster2 as int, i)
}

/// A well-formed dendrogram: every step merges two distinct live ids.
pub open spec fn valid_steps(steps: Seq<MergeStep>, n: int) -> bool {
    forall|i: int| 0 <= i < steps.len() ==> #[trigger] valid_step(steps, n, i)
}

/// The cluster id that holds `x` after the first `m` merge steps.
pub open spec fn dendro_cluster(steps: Seq<MergeStep>, n: int, m: int, x: int) -> int
    decreases m,
{
    if m <= 0 {
        x
    } else {
        let p = dendro_cluster(steps, n, m - 1, x);
        if p == steps[m - 1].cluster1 || p == steps[m - 1].cluster2 {
            n + m - 1
        } else {
            p
        }
    }
}

/// An id at or above `n + m` is untouched by the first `m` steps.
pub proof fn lemma_dc_fresh(steps: Seq<MergeStep>, n: int, m: int, x: int)
    requires
        valid_steps(steps, n),
        0 <= m <= steps.len(),
        x >= n + m,
    ensures
        dendro_cluster(steps, n, m, x) == x,
    decreases m,
{
    if m > 0 {
        lemma_dc_fresh(steps, n, m - 1, x);
        assert(valid_step(steps, n, m - 1));
    }
}

/// Clusters stay within the id range of the steps applied.
pub proof fn lemma_dc_bound(steps: Seq<MergeStep>, n: int, m: int, x: int)
    requires
        valid_steps(steps, n),
        0 <= m <= steps.len(),
        0 <= x < n + m || (0 <= x && m == 0 && x < n),
    ensures
        0 <= dendro_cluster(steps, n, m, x) < if n + m > x + 1 {
            n + m
        } else {
            x + 1
        },
    decreases m,
{
    if m > 0 {
        assert(valid_step(steps, n, m - 1));
        if x >= n + m - 1 {
            lemma_dc_fresh(steps, n, m - 1, x);
        } else {
            lemma_dc_bound(steps, n, m - 1, x);
        }
    }
}

/// A live id keeps itself as its own cluster.
pub proof fn lemma_dc_live(steps: Seq<MergeStep>, n: int, m: int, c: int)
    requires
        valid_steps(steps, n),
        0 <= m <= steps.len(),
        0 <= c < n + m,
        fresh_at(steps, c, m),
    ensures
        dendro_cluster(steps, n, m, c) == c,
    decreases m,
{
    if m > 0 {
        if c >= n + m - 1 {
            lemma_dc_fresh(steps, n, m - 1, c);
        } else {
            assert(fresh_at(steps, c, m - 1));
            lemma_dc_live(steps, n, m - 1, c);
        }
        assert(steps[m - 1].cluster1 != c && steps[m - 1].cluster2 != c);
    }
}

/// The cluster of `x` is itself live: no earlier step has merged it.
pub proof fn lemma_dc_is_fresh(steps: Seq<MergeStep>, n: int, m: int, x: int)
    requires
        valid_steps(steps, n),
        0 <= m <= steps.len(),
    ensures
        fresh_at(steps, dendro_cluster(steps, n, m, x), m),
    decreases m,
{
    if m > 0 {
        lemma_dc_is_fresh(steps, n, m - 1, x);
        let p = dendro_cluster(steps, n, m - 1, x);
        let q = dendro_cluster(steps, n, m, x);
        assert(valid_step(steps, n, m - 1));
        if p == steps[m - 1].cluster1 || p == steps[m - 1].cluster2 {
            assert(q == n + m - 1);
            assert forall|j: int| 0 <= j < m implies (#[trigger] steps[j]).cluster1 != q
                && steps[j].cluster2 != q by {
                assert(valid_step(steps, n, j));
            }
        } else {
            assert(forall|j: int|
                0 <= j < m - 1 ==> (#[trigger] steps[j]).cluster1 != q && steps[j].cluster2
                    != q);
        }
    }
}

/// A union-find structure over cluster ids, every parent pointing at a
/// smaller id.
pub struct UnionFind {
    pub parent: Vec<usize>,
}

/// The representative reached from `i` by following parents.
pub open spec fn root_of(p: Seq<usize>, i: int) -> int
    decreases (if i >= 0 {
        i
    } else {
        0
    }),
{
    if 0 <= i < p.len() && p[i] < i {
        root_of(p, p[i] as int)
    } else {
        i
    }
}

impl UnionFind {
    pub open spec fn wf(&self) -> bool {
        forall|i: int| 0 <= i < self.parent@.len() ==> (#[trigger] self.parent@[i]) <= i
    }

    /// One singleton set for each of the ids `0 ..= size`.
    pub fn new(size: usize) -> (r: UnionFind)
        requires
            size < usize::MAX,
        ensures
            r.wf(),
            r.parent@.len() == size + 1,
            forall|i: int| 0 <= i <= size ==> root_of(r.parent@, i) == i,
    {
        let mut parent: Vec<usize> = Vec::new();
        let mut i: usize = 0;
        while i < size + 1
            invariant
                size < usize::MAX,
                i <= size + 1,
                parent@.len() == i,
                forall|j: int| 0 <= j < i ==> (#[trigger] parent@[j]) == j,
            decreases size + 1 - i,
        {
            parent.push(i);
            i += 1;
        }
        UnionFind { parent }
    }

    /// The representative of the set holding `i`; an id outside the
    /// structure is its own representative.
    pub fn find(&self, i: usize) -> (r: usize)
        requires
            self.wf(),
        ensures
            r == root_of(self.parent@, i as int),
        decreases i,
    {
        if i >= self.parent.len() {
            return i;
        }
        let p = self.parent[i];
        if p == i {
            i
        } else {
            self.find(p)
        }
    }

    /// Joins the sets holding `i` and `j`; ids outside the structure
    /// are ignored, as is a pair already joined.
    pub fn union(&mut self, i: usize, j: usize)
        requires
            old(self).wf(),
        ensures
            final(self).wf(),
            final(self).parent@.len() == old(self).parent@.len(),
            ({
                let ri = root_of(old(self).parent@, i as int);
                let rj = root_of(old(self).parent@, j as int);
                if i < old(self).parent@.len() && j < old(self).parent@.len() && ri != rj {
                    forall|x: int|
                        #[trigger] root_of(final(self).parent@, x) == (if root_of(
                            old(self).parent@,
                            x,
                        ) == (if ri > rj {
                            ri
                        } else {
                            rj
                        }) {
                            if ri > rj {
                                rj
                            } else {
                                ri
                            }
                        } else {
                            root_of(old(self).parent@, x)
                        })
                } else {
                    final(self).parent@ == old(self).parent@
                }
            }),
    {
        if i >= self.parent.len() || j >= self.parent.len() {
            return ;
        }
        let ri = self.find(i);
        let rj = self.find(j);
        if ri == rj {
            return ;
        }
        proof {
            lemma_root_in_range(self.parent@, i as int);
            lemma_root_in_range(self.parent@, j as int);
            lemma_root_is_root(self.parent@, i as int);
            lemma_root_is_root(self.parent@, j as int);
        }
        let hi: usize = if ri > rj {
            ri
        } else {
            rj
        };
        let lo: usize = if ri > rj {
            rj
        } else {
            ri
        };
        let ghost oldp = self.parent@;
        self.parent.set(hi, lo);
        proof {
            assert(self.parent@ =~= oldp.update(hi as int, lo));
            assert forall|x: int| #[trigger] root_of(self.parent@, x) == (if root_of(oldp, x)
                == hi {
                lo as int
            } else {
                root_of(oldp, x)
            }) by {
                lemma_root_after_link(oldp, hi as int, lo as int, x);
            }
        }
    }
}

/// Following parents from inside the structure stays inside and ends at
/// an id no larger than the start.
proof fn lemma_root_in_range(p: Seq<usize>, i: int)
    requires
        forall|k: int| 0 <= k < p.len() ==> (#[trigger] p[k]) <= k,
        0 <= i < p.len(),
    ensures
        0 <= root_of(p, i) <= i,
    decreases i,
{
    if p[i] < i {
        lemma_root_in_range(p, p[i] as int);
    }
}

/// The representative is a fixed point of the parent array.
proof fn lemma_root_is_root(p: Seq<usize>, i: int)
    requires
        forall|k: int| 0 <= k < p.len() ==> (#[trigger] p[k]) <= k,
        0 <= i < p.len(),
    ensures
        p[root_of(p, i)] == root_of(p, i),
    decreases i,
{
    if p[i] < i {
        lemma_root_is_root(p, p[i] as int);
    } else {
        assert(p[i] == i);
    }
}

/// Linking the root `hi` under the smaller root `lo` redirects exactly
/// the ids that pointed at `hi`.
proof fn lemma_root_after_link(p: Seq<usize>, hi: int, lo: int, x: int)
    requires
        forall|k: int| 0 <= k < p.len() ==> (#[trigger] p[k]) <= k,
        0 <= lo < hi < p.len(),
        p[hi] == hi,
        p[lo] == lo,
    ensures
        root_of(p.update(hi, lo as usize), x) == (if root_of(p, x) == hi {
            lo
        } else {
            root_of(p, x)
        }),
    decreases (if x >= 0 {
        x
    } else {
        0
    }),
{
    let q = p.update(hi, lo as usize);
    if 0 <= x < p.len() {
        if x == hi {
            assert(q[x] == lo);
            assert(root_of(q, x) == root_of(q, lo));
            lemma_root_after_link(p, hi, lo, lo);
            assert(root_of(p, lo) == lo);
        } else {
            assert(q[x] == p[x]);
            if p[x] < x {
                lemma_root_after_link(p, hi, lo, p[x] as int);
            } else {
                assert(root_of(q, x) == x);
                assert(root_of(p, x) == x);
            }
        }
    }
}

/// The live cluster ids after the first `m` steps.
pub open spec fn active_set(steps: Seq<MergeStep>, n: int, m: int) -> Set<int> {
    Set::new(|c: int| 0 <= c < n + m && fresh_at(steps, c, m))
}

/// Each merge step lowers the number of live clusters by one.
pub proof fn lemma_active_count(steps: Seq<MergeStep>, n: int, m: int)
    requires
        valid_steps(steps, n),
        0 <= m <= steps.len(),
        n >= 0,
    ensures
        active_set(steps, n, m).finite(),
        active_set(steps, n, m).len() == n - m,
    decreases m,
{
    broadcast use vstd::set::group_set_axioms;

    if m == 0 {
        assert(active_set(steps, n, 0) =~= vstd::set_lib::set_int_range(0, n));
        vstd::set_lib::lemma_int_range(0, n);
    } else {
        lemma_active_count(steps, n, m - 1);
        let prev = active_set(steps, n, m - 1);
        let cur = active_set(steps, n, m);
        assert(valid_step(steps, n, m - 1));
        let c1 = steps[m - 1].cluster1 as int;
        let c2 = steps[m - 1].cluster2 as int;
        assert(prev.contains(c1) && prev.contains(c2));
        assert forall|c: int| #[trigger] cur.contains(c) implies (prev.remove(c1).remove(
            c2,
        ).contains(c) || c == n + m - 1) by {
            if c != n + m - 1 {
                assert(fresh_at(steps, c, m - 1));
                assert(steps[m - 1].cluster1 != c && steps[m - 1].cluster2 != c);
            }
        }
        assert forall|c: int| prev.remove(c1).remove(c2).contains(c) implies cur.contains(
            c,
        ) by {
            assert(fresh_at(steps, c, m - 1) && c != c1 && c != c2);
            assert forall|j: int| 0 <= j < m implies (#[trigger] steps[j]).cluster1 != c
                && steps[j].cluster2 != c by {}
        }
        assert(cur.contains(n + m - 1)) by {
            assert forall|j: int| 0 <= j < m implies (#[trigger] steps[j]).cluster1 != n + m - 1
                && steps[j].cluster2 != n + m - 1 by {
                assert(valid_step(steps, n, j));
            }
        }
        assert(cur =~= prev.remove(c1).remove(c2).insert(n + m - 1));
        assert(!prev.remove(c1).remove(c2).contains(n + m - 1));
    }
}

/// Cutting before any step leaves every leaf in its own cluster: with
/// as many clusters asked for as there are samples, the forest is all
/// singletons.
pub proof fn lemma_no_cut_singletons(steps: Seq<MergeStep>, n: int, x: int)
    ensures
        dendro_cluster(steps, n, 0, x) == x,
{
}

/// Cutting after all `n - 1` steps of a full dendrogram leaves a single
/// cluster: every pair of ids ends in the same one.
pub proof fn lemma_full_cut_single_cluster(steps: Seq<MergeStep>, n: int, x: int, y: int)
    requires
        valid_steps(steps, n),
        steps.len() == n - 1,
        n >= 1,
        0 <= x < n,
        0 <= y < n,
    ensures
        dendro_cluster(steps, n, n - 1, x) == dendro_cluster(steps, n, n - 1, y),
{
    broadcast use vstd::set::group_set_axioms;

    lemma_active_count(steps, n, n - 1);
    let a = active_set(steps, n, n - 1);
    let dx = dendro_cluster(steps, n, n - 1, x);
    let dy = dendro_cluster(steps, n, n - 1, y);
    lemma_dc_is_fresh(steps, n, n - 1, x);
    lemma_dc_is_fresh(steps, n, n - 1, y);
    lemma_dc_bound(steps, n, n - 1, x);
    lemma_dc_bound(steps, n, n - 1, y);
    assert(a.contains(dx));
    assert(a.contains(dy));
    if dx != dy {
        assert(a.remove(dx).contains(dy));
        assert(a.remove(dx).len() == 0);
        assert(a.remove(dx).finite());
        a.remove(dx).lemma_len0_is_empty();
        assert(false);
    }
}

/// Applies the first `m` merge steps of a dendrogram over `n` leaves to
/// a fresh union-find structure.  Two ids end in the same set exactly
/// when the dendrogram places them in the same cluster after those `m`
/// steps.
pub fn cut_dendrogram(steps: &Vec<MergeStep>, n: usize, m: usize) -> (uf: UnionFind)
    requires
        valid_steps(steps@, n as int),
        m <= steps@.len(),
        n + steps@.len() < usize::MAX - 1,
    ensures
        uf.wf(),
        uf.parent@.len() == (if steps@.len() == 0 {
            n as int
        } else {
            n as int + steps@.len()
        }) + 1,
        forall|x: int, y: int|
            0 <= x < n + m && 0 <= y < n + m ==> ((#[trigger] root_of(uf.parent@, x)
                == #[trigger] root_of(uf.parent@, y)) <==> dendro_cluster(
                steps@,
                n as int,
                m as int,
                x,
            ) == dendro_cluster(steps@, n as int, m as int, y)),
{
    let max_index = if steps.len() == 0 {
        n
    } else {
        n + steps.len()
    };
    let mut uf = UnionFind::new(max_index);
    let ghost glen = uf.parent@.len() as int;
    let mut t: usize = 0;
    proof {
        assert forall|x: int| n <= x < glen implies #[trigger] root_of(uf.parent@, x) == x by {}
        assert forall|x: int| 0 <= x < glen implies #[trigger] root_of(uf.parent@, x) == x by {}
    }
    while t < m
        invariant
            t <= m,
            m <= steps@.len(),
            valid_steps(steps@, n as int),
            n + steps@.len() < usize::MAX - 1,
            uf.wf(),
            uf.parent@.len() == glen,
            glen == (if steps@.len() == 0 {
                n as int
            } else {
                n + steps@.len()
            }) + 1,
            forall|x: int| n + t <= x < glen ==> #[trigger] root_of(uf.parent@, x) == x,
            forall|x: int, y: int|
                0 <= x < n + t && 0 <= y < n + t ==> ((#[trigger] root_of(uf.parent@, x)
                    == #[trigger] root_of(uf.parent@, y)) <==> dendro_cluster(
                    steps@,
                    n as int,
                    t as int,
                    x,
                ) == dendro_cluster(steps@, n as int, t as int, y)),
        decreases m - t,
    {
        let a = steps[t].cluster1;
        let b = steps[t].cluster2;
        let u = n + t;
        let ghost p0 = uf.parent@;
        proof {
            assert(valid_step(steps@, n as int, t as int));
            lemma_dc_live(steps@, n as int, t as int, a as int);
            lemma_dc_live(steps@, n as int, t as int, b as int);
            lemma_root_in_range(p0, a as int);
            lemma_root_in_range(p0, b as int);
            assert(root_of(p0, u as int) == u);
            assert(root_of(p0, a as int) != root_of(p0, b as int));
        }
        let ghost ra = root_of(p0, a as int);
        let ghost rb = root_of(p0, b as int);
        uf.union(a, u);
        let ghost p1 = uf.parent@;
        proof {
            // after the first union the root of u's class is ra
            assert(root_of(p1, a as int) == ra);
            assert(root_of(p1, u as int) == ra);
            assert(root_of(p1, b as int) == rb);
        }
        uf.union(b, u);
        let ghost p2 = uf.parent@;
        proof {
            let rm = if rb > ra {
                rb
            } else {
                ra
            };
            let rk = if rb > ra {
                ra
            } else {
                rb
            };
            assert(root_of(p2, b as int) == rk);
            assert(root_of(p2, u as int) == rk);
            assert(root_of(p2, a as int) == rk);
            // untouched ids above n + t + 1 keep their own roots
            assert forall|x: int| n + t + 1 <= x < glen implies #[trigger] root_of(p2, x)
                == x by {
                assert(root_of(p0, x) == x);
                assert(root_of(p1, x) == (if root_of(p0, x) == u as int {
                    ra
                } else {
                    root_of(p0, x)
                }));
                assert(x != u);
            }
            // the partition equivalence
            assert forall|x: int, y: int|
                0 <= x < n + t + 1 && 0 <= y < n + t + 1 implies ((#[trigger] root_of(p2, x)
                == #[trigger] root_of(p2, y)) <==> dendro_cluster(
                steps@,
                n as int,
                t + 1,
                x,
            ) == dendro_cluster(steps@, n as int, t + 1, y)) by {
                lemma_cut_step_case(steps@, n as int, t as int, p0, p1, p2, glen, x);
                lemma_cut_step_case(steps@, n as int, t as int, p0, p1, p2, glen, y);
                let dx = dendro_cluster(steps@, n as int, t + 1, x);
                let dy = dendro_cluster(steps@, n as int, t + 1, y);
                let dx0 = dendro_cluster(steps@, n as int, t as int, x);
                let dy0 = dendro_cluster(steps@, n as int, t as int, y);
                if x < n + t && y < n + t {
                    assert((root_of(p0, x) == root_of(p0, y)) <==> dx0 == dy0);
                }
            }
        }
        t += 1;
    }
    uf
}

/// How one cut step moves a single id: its new root is the merged
/// class's root exactly when its new dendrogram cluster is the new id.
proof fn lemma_cut_step_case(
    steps: Seq<MergeStep>,
    n: int,
    t: int,
    p0: Seq<usize>,
    p1: Seq<usize>,
    p2: Seq<usize>,
    glen: int,
    x: int,
)
    requires
        valid_steps(steps, n),
        0 <= t < steps.len(),
        0 <= x < n + t + 1,
        n + t < glen <= usize::MAX,
        p0.len() == glen,
        p1.len() == glen,
        p2.len() == glen,
        forall|k: int| 0 <= k < p0.len() ==> (#[trigger] p0[k]) <= k,
        forall|z: int| n + t <= z < glen ==> #[trigger] root_of(p0, z) == z,
        forall|z: int, w: int|
            0 <= z < n + t && 0 <= w < n + t ==> ((#[trigger] root_of(p0, z)
                == #[trigger] root_of(p0, w)) <==> dendro_cluster(steps, n, t, z)
                == dendro_cluster(steps, n, t, w)),
        forall|z: int|
            #[trigger] root_of(p1, z) == (if root_of(p0, z) == n + t {
                root_of(p0, steps[t].cluster1 as int)
            } else {
                root_of(p0, z)
            }),
        forall|z: int|
            #[trigger] root_of(p2, z) == (if root_of(p1, z) == (if root_of(
                p0,
                steps[t].cluster2 as int,
            ) > root_of(p0, steps[t].cluster1 as int) {
                root_of(p0, steps[t].cluster2 as int)
            } else {
                root_of(p0, steps[t].cluster1 as int)
            }) {
                (if root_of(p0, steps[t].cluster2 as int) > root_of(
                    p0,
                    steps[t].cluster1 as int,
                ) {
                    root_of(p0, steps[t].cluster1 as int)
                } else {
                    root_of(p0, steps[t].cluster2 as int)
                })
            } else {
                root_of(p1, z)
            }),
    ensures
        ({
            let a = steps[t].cluster1 as int;
            let b = steps[t].cluster2 as int;
            let ra = root_of(p0, a);
            let rb = root_of(p0, b);
            let rk = if rb > ra {
                ra
            } else {
                rb
            };
            let d = dendro_cluster(steps, n, t + 1, x);
            &&& (d == n + t <==> root_of(p2, x) == rk)
            &&& (d != n + t ==> d == dendro_cluster(steps, n, t, x) && root_of(p2, x)
                == root_of(p0, x))
        }),
{
    assert(valid_step(steps, n, t));
    let a = steps[t].cluster1 as int;
    let b = steps[t].cluster2 as int;
    let ra = root_of(p0, a);
    let rb = root_of(p0, b);
    let rm = if rb > ra {
        rb
    } else {
        ra
    };
    let rk = if rb > ra {
        ra
    } else {
        rb
    };
    lemma_dc_live(steps, n, t, a);
    lemma_dc_live(steps, n, t, b);
    assert(ra != rb);
    lemma_root_in_range(p0, a);
    lemma_root_in_range(p0, b);
    if x == n + t {
        // the new id joins the merged class
        lemma_dc_fresh(steps, n, t, x);
        assert(dendro_cluster(steps, n, t + 1, x) == n + t);
        assert(root_of(p0, x) == x);
        assert(root_of(p1, x) == ra);
        assert(root_of(p2, x) == rk);
    } else {
        let d0 = dendro_cluster(steps, n, t, x);
        lemma_dc_bound(steps, n, t, x);
        assert(0 <= x < n + t);
        lemma_root_in_range(p0, x);
        assert(root_of(p0, x) != n + t);
        if d0 == a || d0 == b {
            assert(dendro_cluster(steps, n, t + 1, x) == n + t);
            if d0 == a {
                assert(root_of(p0, x) == ra);
                assert(root_of(p1, x) == ra);
                assert(root_of(p2, x) == rk);
            } else {
                assert(root_of(p0, x) == rb);
                assert(root_of(p1, x) == rb);
                assert(root_of(p2, x) == rk);
            }
        } else {
            assert(dendro_cluster(steps, n, t + 1, x) == d0);
            assert(root_of(p0, x) != ra) by {
                if root_of(p0, x) == ra {
                    assert(dendro_cluster(steps, n, t, x) == dendro_cluster(steps, n, t, a));
                }
            }
            assert(root_of(p0, x) != rb) by {
                if root_of(p0, x) == rb {
                    assert(dendro_cluster(steps, n, t, x) == dendro_cluster(steps, n, t, b));
                }
            }
            assert(root_of(p1, x) == root_of(p0, x));
            assert(root_of(p2, x) == root_of(p0, x));
            assert(root_of(p2, x) != rk);
            assert(dendro_cluster(steps, n, t + 1, x) != n + t) by {
                lemma_dc_bound(steps, n, t, x);
            }
        }
    }
}

/// Which linkage rule updates cluster dissimilarities.
#[derive(Clone, Copy, Debug, PartialEq, Eq, Structural)]
pub enum LinkageMethod {
    Average,
    Complete,
    Ward,
}

/// The linkage rule selected by an integer code: 1 is complete
/// linkage, 2 is Ward linkage, anything else averages.
pub fn method_from_i64(v: i64) -> (r: LinkageMethod)
    ensures
        r == (if v == 1 {
            LinkageMethod::Complete
        } else if v == 2 {
            LinkageMethod::Ward
        } else {
            LinkageMethod::Average
        }),
{
    if v == 1 {
        LinkageMethod::Complete
    } else if v == 2 {
        LinkageMethod::Ward
    } else {
        LinkageMethod::Average
    }
}

/// The set of alphanumeric, lower-cased words of a tweet.
pub fn tokeniser_tweet(t: &str) -> (r: crate::tokenset::TokenSet)
    requires
        t@.len() <= crate::tokenset::MAX_TOKENS,
    ensures
        r.wf(),
        r.tokens() == crate::token::spec_words_alnum(t@).to_set(),
{
    let toks = crate::token::tokenize_alnum(t);
    proof {
        crate::token::lemma_token_count(crate::token::lower_seq(t@), true);
    }
    crate::tokenset::TokenSet::new(&toks)
}

/// The Jaccard distance between two word sets; 1 when both are empty.
pub fn distance(a: &crate::tokenset::TokenSet, b: &crate::tokenset::TokenSet) -> (r:
    crate::frac::Frac)
    requires
        a.wf(),
        b.wf(),
    ensures
        r == crate::tokenset::spec_jaccard(a.tokens(), b.tokens(), true),
        r.wf(),
        r.num <= r.den,
{
    crate::tokenset::jaccard(a, b, true)
}

/// The sum of a sequence of cluster sizes.
pub open spec fn sum_sizes(s: Seq<usize>) -> int
    decreases s.len(),
{
    if s.len() == 0 {
        0
    } else {
        sum_sizes(s.drop_last()) + s.last()
    }
}

proof fn lemma_entry_le_sum(s: Seq<usize>, j: int)
    requires
        0 <= j < s.len(),
    ensures
        s[j] <= sum_sizes(s),
        sum_sizes(s) >= 0,
    decreases s.len(),
{
    if s.len() > 0 {
        if j == s.len() - 1 {
            lemma_sum_nonneg(s.drop_last());
        } else {
            lemma_entry_le_sum(s.drop_last(), j);
        }
    }
}

proof fn lemma_sum_nonneg(s: Seq<usize>)
    ensures
        sum_sizes(s) >= 0,
    decreases s.len(),
{
    if s.len() > 0 {
        lemma_sum_nonneg(s.drop_last());
    }
}

proof fn lemma_sum_remove(s: Seq<usize>, j: int)
    requires
        0 <= j < s.len(),
    ensures
        sum_sizes(s.remove(j)) == sum_sizes(s) - s[j],
    decreases s.len(),
{
    if j == s.len() - 1 {
        assert(s.remove(j) =~= s.drop_last());
    } else {
        assert(s.remove(j).drop_last() =~= s.drop_last().remove(j));
        assert(s.remove(j).last() == s.last());
        lemma_sum_remove(s.drop_last(), j);
    }
}

/// The size of cluster id `c`: 1 for a leaf, the recorded size of the
/// step that created it otherwise.
pub open spec fn csize(steps: Seq<MergeStep>, n: int, c: int) -> int {
    if 0 <= c < n {
        1
    } else if n <= c < n + steps.len() {
        steps[c - n].size as int
    } else {
        0
    }
}

/// Every step records the size of the merged cluster as the sum of the
/// sizes of the two clusters it joins.
pub open spec fn steps_sized(steps: Seq<MergeStep>, n: int) -> bool {
    forall|i: int|
        0 <= i < steps.len() ==> (#[trigger] steps[i]).size == csize(
            steps,
            n,
            steps[i].cluster1 as int,
        ) + csize(steps, n, steps[i].cluster2 as int)
}

fn zero_dissim() -> (r: Dissim)
    ensures
        r.wf(),
        r.num.value() == 0,
        r.den.value() == 1,
{
    Dissim { num: BigNat::from_u64(0), den: BigNat::from_u64(1) }
}

/// The Lance-Williams update at the value level: the new
/// dissimilarity's numerator and denominator as exact integers, from
/// the previous values `a = d(p,x)`, `b = d(q,x)`, `c = d(p,q)` and
/// the cluster sizes.
pub open spec fn lw_vals(
    method: LinkageMethod,
    an: int,
    ad: int,
    bn: int,
    bd: int,
    cn: int,
    cd: int,
    sp: int,
    sq: int,
    sx: int,
) -> (int, int) {
    match method {
        LinkageMethod::Complete => if an * bd < bn * ad {
            (bn, bd)
        } else {
            (an, ad)
        },
        LinkageMethod::Average => ((an * sp) * bd + (bn * sq) * ad, (ad * bd) * (sp + sq)),
        LinkageMethod::Ward => {
            let av = ((an * (sp + sx)) * bd) * cd;
            let bv = ((bn * (sq + sx)) * ad) * cd;
            let cv = ((cn * sx) * ad) * bd;
            let den = ((ad * bd) * cd) * (sp + sq + sx);
            if av + bv < cv {
                (0, den)
            } else {
                (av + bv - cv, den)
            }
        },
    }
}

/// One Lance-Williams update: the dissimilarity between the cluster
/// merged from `p` and `q` and a third cluster `x`, from the previous
/// dissimilarities and the cluster sizes.  Averaging weighs by size;
/// complete linkage takes the larger; Ward applies
/// `((sp+sx) d(p,x) + (sq+sx) d(q,x) - sx d(p,q)) / (sp+sq+sx)`,
/// clamped at zero.
fn lance_williams(
    method: LinkageMethod,
    dpx: &Dissim,
    dqx: &Dissim,
    dpq: &Dissim,
    sp: usize,
    sq: usize,
    sx: usize,
) -> (r: Dissim)
    requires
        dpx.wf(),
        dqx.wf(),
        dpq.wf(),
        1 <= sp <= 0x7fff_ffff,
        1 <= sq <= 0x7fff_ffff,
        1 <= sx <= 0x7fff_ffff,
    ensures
        r.wf(),
        (r.num.value(), r.den.value()) == lw_vals(
            method,
            dpx.num.value(),
            dpx.den.value(),
            dqx.num.value(),
            dqx.den.value(),
            dpq.num.value(),
            dpq.den.value(),
            sp as int,
            sq as int,
            sx as int,
        ),
{
    match method {
        LinkageMethod::Complete => {
            if dpx.lt(dqx) {
                dqx.duplicate()
            } else {
                dpx.duplicate()
            }
        },
        LinkageMethod::Average => {
            let a = dpx.num.mul_small(sp as u64).mul(&dqx.den);
            let b = dqx.num.mul_small(sq as u64).mul(&dpx.den);
            let num = a.add(&b);
            let den = dpx.den.mul(&dqx.den).mul_small(sp as u64 + sq as u64);
            proof {
                assert(dpx.den.value() * dqx.den.value() >= 1) by (nonlinear_arith)
                    requires
                        dpx.den.value() >= 1,
                        dqx.den.value() >= 1,
                ;
                assert((dpx.den.value() * dqx.den.value()) * (sp as int + sq as int) >= 1)
                    by (nonlinear_arith)
                    requires
                        dpx.den.value() * dqx.den.value() >= 1,
                        sp as int + sq as int >= 1,
                ;
            }
            Dissim { num, den }
        },
        LinkageMethod::Ward => {
            let a = dpx.num.mul_small(sp as u64 + sx as u64).mul(&dqx.den).mul(&dpq.den);
            let b = dqx.num.mul_small(sq as u64 + sx as u64).mul(&dpx.den).mul(&dpq.den);
            let c = dpq.num.mul_small(sx as u64).mul(&dpx.den).mul(&dqx.den);
            let s = a.add(&b);
            let num = if s.lt(&c) {
                BigNat::from_u64(0)
            } else {
                s.sub(&c)
            };
            let den = dpx.den.mul(&dqx.den).mul(&dpq.den).mul_small(sp as u64 + sq as u64 + sx as u64);
            proof {
                assert(dpx.den.value() * dqx.den.value() >= 1) by (nonlinear_arith)
                    requires
                        dpx.den.value() >= 1,
                        dqx.den.value() >= 1,
                ;
                assert((dpx.den.value() * dqx.den.value()) * dpq.den.value() >= 1)
                    by (nonlinear_arith)
                    requires
                        dpx.den.value() * dqx.den.value() >= 1,
                        dpq.den.value() >= 1,
                ;
                assert(((dpx.den.value() * dqx.den.value()) * dpq.den.value()) * (sp as int
                    + sq as int + sx as int) >= 1) by (nonlinear_arith)
                    requires
                        (dpx.den.value() * dqx.den.value()) * dpq.den.value() >= 1,
                        sp as int + sq as int + sx as int >= 1,
                ;
            }
            Dissim { num, den }
        },
    }
}


/// Does the entry at `(p, q)` lie strictly below the one at `(p2, q2)`
/// in dissimilarity value?
pub open spec fn mat_lt(m: Seq<Vec<Dissim>>, p: int, q: int, p2: int, q2: int) -> bool {
    m[p]@[q].num.value() * m[p2]@[q2].den.value() < m[p2]@[q2].num.value()
        * m[p]@[q].den.value()
}

proof fn lemma_mat_lt_le_trans(
    m: Seq<Vec<Dissim>>,
    p: int,
    q: int,
    p2: int,
    q2: int,
    p3: int,
    q3: int,
)
    requires
        m[p]@[q].wf(),
        m[p2]@[q2].wf(),
        m[p3]@[q3].wf(),
        m[p]@[q].num.value() >= 0,
        m[p2]@[q2].num.value() >= 0,
        m[p3]@[q3].num.value() >= 0,
        mat_lt(m, p, q, p2, q2),
        !mat_lt(m, p3, q3, p2, q2),
    ensures
        mat_lt(m, p, q, p3, q3),
{
    let an = m[p]@[q].num.value();
    let ad = m[p]@[q].den.value();
    let bn = m[p2]@[q2].num.value();
    let bd = m[p2]@[q2].den.value();
    let cn = m[p3]@[q3].num.value();
    let cd = m[p3]@[q3].den.value();
    assert(an * cd < cn * ad) by (nonlinear_arith)
        requires
            an * bd < bn * ad,
            bn * cd <= cn * bd,
            ad >= 1,
            bd >= 1,
            cd >= 1,
            an >= 0,
            bn >= 0,
            cn >= 0,
    ;
}

proof fn lemma_mat_lt_lt_trans(
    m: Seq<Vec<Dissim>>,
    p: int,
    q: int,
    p2: int,
    q2: int,
    p3: int,
    q3: int,
)
    requires
        m[p]@[q].wf(),
        m[p2]@[q2].wf(),
        m[p3]@[q3].wf(),
        m[p]@[q].num.value() >= 0,
        m[p2]@[q2].num.value() >= 0,
        m[p3]@[q3].num.value() >= 0,
        mat_lt(m, p, q, p2, q2),
        mat_lt(m, p2, q2, p3, q3),
    ensures
        mat_lt(m, p, q, p3, q3),
{
    let an = m[p]@[q].num.value();
    let ad = m[p]@[q].den.value();
    let bn = m[p2]@[q2].num.value();
    let bd = m[p2]@[q2].den.value();
    let cn = m[p3]@[q3].num.value();
    let cd = m[p3]@[q3].den.value();
    assert(an * cd < cn * ad) by (nonlinear_arith)
        requires
            an * bd < bn * ad,
            bn * cd < cn * bd,
            ad >= 1,
            bd >= 1,
            cd >= 1,
            an >= 0,
            bn >= 0,
            cn >= 0,
    ;
}

/// Scans the dissimilarity matrix for the closest pair of live
/// clusters: no pair lies strictly closer, and every pair scanned
/// earlier lies strictly farther (ties go to the pair encountered
/// first).
fn closest_pair(m: &Vec<Vec<Dissim>>, k: usize) -> (r: (usize, usize))
    requires
        k >= 2,
        matrix_wf(m@, k as int),
    ensures
        r.0 < r.1 < k,
        forall|p: int, q: int| 0 <= p < q < k ==> !mat_lt(m@, p, q, r.0 as int, r.1 as int),
        forall|p: int, q: int|
            0 <= p < q < k && (p < r.0 || (p == r.0 && q < r.1)) ==> #[trigger] mat_lt(
                m@,
                r.0 as int,
                r.1 as int,
                p,
                q,
            ),
{
    proof {
        assert forall|p: int, q: int| 0 <= p < k && 0 <= q < k implies (
        #[trigger] m@[p]@[q]).num.value() >= 0 by {
            crate::bignat::lemma_nat_of_nonneg(m@[p]@[q].num.limbs@);
        }
    }
    let mut bp: usize = 0;
    let mut bq: usize = 1;
    let mut p: usize = 0;
    while p < k
        invariant
            k >= 2,
            matrix_wf(m@, k as int),
            forall|p2: int, q2: int|
                0 <= p2 < k && 0 <= q2 < k ==> (#[trigger] m@[p2]@[q2]).num.value() >= 0,
            bp < bq < k,
            bp <= p <= k,
            bp == p ==> bq <= p + 1,
            forall|p2: int, q2: int|
                0 <= p2 < q2 < k && p2 < p ==> !mat_lt(m@, p2, q2, bp as int, bq as int),
            forall|p2: int, q2: int|
                0 <= p2 < q2 < k && p2 < p && (p2 < bp || (p2 == bp && q2 < bq))
                    ==> #[trigger] mat_lt(m@, bp as int, bq as int, p2, q2),
        decreases k - p,
    {
        let mut q: usize = p + 1;
        while q < k
            invariant
                k >= 2,
                matrix_wf(m@, k as int),
                forall|p2: int, q2: int|
                    0 <= p2 < k && 0 <= q2 < k ==> (#[trigger] m@[p2]@[q2]).num.value() >= 0,
                bp < bq < k,
                p < k,
                p < q <= k,
                bp < p || (bp == p && bq <= q),
                forall|p2: int, q2: int|
                    0 <= p2 < q2 < k && (p2 < p || (p2 == p && q2 < q)) ==> !mat_lt(
                        m@,
                        p2,
                        q2,
                        bp as int,
                        bq as int,
                    ),
                forall|p2: int, q2: int|
                    0 <= p2 < q2 < k && (p2 < p || (p2 == p && q2 < q)) && (p2 < bp || (p2
                        == bp && q2 < bq)) ==> #[trigger] mat_lt(
                        m@,
                        bp as int,
                        bq as int,
                        p2,
                        q2,
                    ),
            decreases k - q,
        {
            let ghost obp = bp as int;
            let ghost obq = bq as int;
            if m[p][q].lt(&m[bp][bq]) {
                bp = p;
                bq = q;
                proof {
                    assert(mat_lt(m@, bp as int, bq as int, obp, obq));
                    assert forall|p2: int, q2: int|
                        0 <= p2 < q2 < k && (p2 < p || (p2 == p && q2 < q + 1))
                            implies !mat_lt(m@, p2, q2, bp as int, bq as int) by {
                        if p2 < p || (p2 == p && q2 < q) {
                            if mat_lt(m@, p2, q2, bp as int, bq as int) {
                                lemma_mat_lt_lt_trans(
                                    m@,
                                    p2,
                                    q2,
                                    bp as int,
                                    bq as int,
                                    obp,
                                    obq,
                                );
                            }
                        }
                    }
                    assert forall|p2: int, q2: int|
                        0 <= p2 < q2 < k && (p2 < p || (p2 == p && q2 < q + 1)) && (p2 < bp
                            || (p2 == bp && q2 < bq)) implies #[trigger] mat_lt(
                        m@,
                        bp as int,
                        bq as int,
                        p2,
                        q2,
                    ) by {
                        lemma_mat_lt_le_trans(m@, bp as int, bq as int, obp, obq, p2, q2);
                    }
                }
            } else {
                proof {
                    assert(!mat_lt(m@, p as int, q as int, bp as int, bq as int));
                }
            }
            q += 1;
        }
        p += 1;
    }
    (bp, bq)
}



/// One linkage round advances the spec trace: with the state
/// equalities established, the recorded steps extend the matched
/// prefix and the new state carries the remaining spec steps.
proof fn lemma_linkage_round(
    sfull: Seq<(usize, usize, int, (int, int))>,
    vm0: Seq<Seq<(int, int)>>,
    old_ids: Seq<usize>,
    old_szs: Seq<usize>,
    new_vm: Seq<Seq<(int, int)>>,
    new_ids: Seq<usize>,
    new_szs: Seq<usize>,
    steps: Seq<MergeStep>,
    method: LinkageMethod,
    n: int,
    k: int,
    t: int,
    bp: int,
    bq: int,
    new_id: usize,
)
    requires
        old_ids.len() == k,
        2 <= k <= n,
        2 * n <= usize::MAX,
        0 <= bp < bq < k,
        1 <= t,
        t <= sfull.len(),
        steps.len() == t,
        new_id == n + (n - k),
        spec_closest(vm0, k) == (bp, bq),
        spec_linkage_go(vm0, old_ids, old_szs, method, n) == sfull.skip(t - 1),
        new_vm == rebuild_vm(vm0, old_szs, bp, bq, method, k),
        new_ids == rebuild_ids(old_ids, bp, bq, new_id),
        new_szs == rebuild_szs(old_szs, bp, bq),
        steps_match(steps.take(t - 1), sfull.take(t - 1)),
        steps[t - 1].cluster1 == old_ids[bp],
        steps[t - 1].cluster2 == old_ids[bq],
        steps[t - 1].size == old_szs[bp] + old_szs[bq],
        steps[t - 1].dissim.num.value() == vm0[bp][bq].0,
        steps[t - 1].dissim.den.value() == vm0[bp][bq].1,
    ensures
        steps_match(steps, sfull.take(t)),
        spec_linkage_go(new_vm, new_ids, new_szs, method, n) == sfull.skip(t),
{
    let sv = (old_ids[bp], old_ids[bq], old_szs[bp] + old_szs[bq], vm0[bp][bq]);
    let go_cur = spec_linkage_go(vm0, old_ids, old_szs, method, n);
    assert(0 <= n + (n - k) <= usize::MAX);
    assert((n + (n - old_ids.len())) as usize == new_id);
    assert(go_cur == seq![sv] + spec_linkage_go(new_vm, new_ids, new_szs, method, n));
    assert(sfull.skip(t - 1).len() == go_cur.len());
    assert(go_cur.len() >= 1);
    assert(sfull.skip(t - 1).len() == sfull.len() - (t - 1));
    assert(sfull.skip(t - 1)[0] == sfull[(t - 1) + 0]);
    assert(sfull[t - 1] == go_cur[0]);
    assert(go_cur[0] == sv) by {
        assert(go_cur == seq![sv] + spec_linkage_go(new_vm, new_ids, new_szs, method, n));
        assert((seq![sv] + spec_linkage_go(new_vm, new_ids, new_szs, method, n))[0] == sv);
    }
    assert(sfull[t - 1] == sv);
    assert(steps_match(steps, sfull.take(t))) by {
        assert(sfull.take(t).len() == t);
        assert forall|t2: int| 0 <= t2 < t implies (#[trigger] steps[t2]).cluster1 == sfull.take(
            t,
        )[t2].0 && steps[t2].cluster2 == sfull.take(t)[t2].1 && steps[t2].size == sfull.take(
            t,
        )[t2].2 && steps[t2].dissim.num.value() == sfull.take(t)[t2].3.0
            && steps[t2].dissim.den.value() == sfull.take(t)[t2].3.1 by {
            if t2 < t - 1 {
                assert(steps.take(t - 1)[t2] == steps[t2]);
                assert(sfull.take(t - 1)[t2] == sfull.take(t)[t2]);
            } else {
                assert(sfull.take(t)[t2] == sfull[t - 1]);
            }
        }
    }
    assert(sfull.skip(t - 1).drop_first() =~= sfull.skip(t));
    assert((seq![sv] + spec_linkage_go(new_vm, new_ids, new_szs, method, n)).drop_first()
        =~= spec_linkage_go(new_vm, new_ids, new_szs, method, n));
}

/// The numerator/denominator values of a square dissimilarity matrix.
pub open spec fn vals_of(m: Seq<Vec<Dissim>>, k: int) -> Seq<Seq<(int, int)>> {
    Seq::new(k as nat, |a: int| Seq::new(k as nat, |b: int| (m[a]@[b].num.value(), m[a]@[b].den.value())))
}

/// Value-level strict order between two matrix entries.
pub open spec fn vm_lt(vm: Seq<Seq<(int, int)>>, p: int, q: int, p2: int, q2: int) -> bool {
    vm[p][q].0 * vm[p2][q2].1 < vm[p2][q2].0 * vm[p][q].1
}

/// The pair `pq` is the closest of the matrix: no pair lies strictly
/// below it and every pair scanned earlier lies strictly above it.
pub open spec fn closest_ok(vm: Seq<Seq<(int, int)>>, k: int, pq: (int, int)) -> bool {
    &&& 0 <= pq.0 < pq.1 < k
    &&& forall|p: int, q: int| 0 <= p < q < k ==> !(#[trigger] vm_lt(vm, p, q, pq.0, pq.1))
    &&& forall|p: int, q: int|
        0 <= p < q < k && (p < pq.0 || (p == pq.0 && q < pq.1)) ==> #[trigger] vm_lt(
            vm,
            pq.0,
            pq.1,
            p,
            q,
        )
}

/// The closest pair of the matrix.
pub open spec fn spec_closest(vm: Seq<Seq<(int, int)>>, k: int) -> (int, int) {
    choose|pq: (int, int)| closest_ok(vm, k, pq)
}

/// Only one pair can satisfy `closest_ok`.
pub proof fn lemma_closest_unique(vm: Seq<Seq<(int, int)>>, k: int, a: (int, int), b: (int, int))
    requires
        closest_ok(vm, k, a),
        closest_ok(vm, k, b),
    ensures
        a == b,
{
    if a != b {
        if a.0 < b.0 || (a.0 == b.0 && a.1 < b.1) {
            assert(vm_lt(vm, b.0, b.1, a.0, a.1));
        } else {
            assert(vm_lt(vm, a.0, a.1, b.0, b.1));
        }
    }
}

/// The old position that the `w`-th kept entry came from, once the
/// positions `bp < bq` are removed.
pub open spec fn keep_idx(bp: int, bq: int, w: int) -> int {
    if w < bp {
        w
    } else if w < bq - 1 {
        w + 1
    } else {
        w + 2
    }
}

/// The live ids after merging positions `bp` and `bq` into `new_id`.
pub open spec fn rebuild_ids(ids: Seq<usize>, bp: int, bq: int, new_id: usize) -> Seq<usize> {
    Seq::new(
        (ids.len() - 1) as nat,
        |w: int|
            if w < ids.len() - 2 {
                ids[keep_idx(bp, bq, w)]
            } else {
                new_id
            },
    )
}

/// The live sizes after merging positions `bp` and `bq`.
pub open spec fn rebuild_szs(szs: Seq<usize>, bp: int, bq: int) -> Seq<usize> {
    Seq::new(
        (szs.len() - 1) as nat,
        |w: int|
            if w < szs.len() - 2 {
                szs[keep_idx(bp, bq, w)]
            } else {
                (szs[bp] + szs[bq]) as usize
            },
    )
}

/// The Lance-Williams value of the merged cluster against old
/// position `x`.
pub open spec fn lw_at(
    vm: Seq<Seq<(int, int)>>,
    szs: Seq<usize>,
    bp: int,
    bq: int,
    x: int,
    method: LinkageMethod,
) -> (int, int) {
    lw_vals(
        method,
        vm[bp][x].0,
        vm[bp][x].1,
        vm[bq][x].0,
        vm[bq][x].1,
        vm[bp][bq].0,
        vm[bp][bq].1,
        szs[bp] as int,
        szs[bq] as int,
        szs[x] as int,
    )
}

/// The dissimilarity values after merging positions `bp` and `bq`.
pub open spec fn rebuild_vm(
    vm: Seq<Seq<(int, int)>>,
    szs: Seq<usize>,
    bp: int,
    bq: int,
    method: LinkageMethod,
    k: int,
) -> Seq<Seq<(int, int)>> {
    Seq::new(
        (k - 1) as nat,
        |a: int|
            Seq::new(
                (k - 1) as nat,
                |b: int|
                    if a < k - 2 && b < k - 2 {
                        vm[keep_idx(bp, bq, a)][keep_idx(bp, bq, b)]
                    } else if a < k - 2 {
                        lw_at(vm, szs, bp, bq, keep_idx(bp, bq, a), method)
                    } else if b < k - 2 {
                        lw_at(vm, szs, bp, bq, keep_idx(bp, bq, b), method)
                    } else {
                        (0, 1)
                    },
            ),
    )
}

/// The merge steps the algorithm performs from a state of live
/// clusters: each round merges the closest pair and rewrites the
/// remaining dissimilarities by the Lance-Williams rule.
pub open spec fn spec_linkage_go(
    vm: Seq<Seq<(int, int)>>,
    ids: Seq<usize>,
    szs: Seq<usize>,
    method: LinkageMethod,
    n: int,
) -> Seq<(usize, usize, int, (int, int))>
    decreases ids.len(),
{
    if ids.len() <= 1 {
        Seq::empty()
    } else {
        let k = ids.len() as int;
        let pq = spec_closest(vm, k);
        let step = (ids[pq.0], ids[pq.1], szs[pq.0] + szs[pq.1], vm[pq.0][pq.1]);
        let new_id = (n + (n - ids.len())) as usize;
        seq![step] + spec_linkage_go(
            rebuild_vm(vm, szs, pq.0, pq.1, method, k),
            rebuild_ids(ids, pq.0, pq.1, new_id),
            rebuild_szs(szs, pq.0, pq.1),
            method,
            n,
        )
    }
}

/// A linkage trace performs one merge per round until one cluster is
/// left.
pub proof fn lemma_go_len(
    vm: Seq<Seq<(int, int)>>,
    ids: Seq<usize>,
    szs: Seq<usize>,
    method: LinkageMethod,
    n: int,
)
    ensures
        spec_linkage_go(vm, ids, szs, method, n).len() == if ids.len() <= 1 {
            0int
        } else {
            ids.len() - 1
        },
    decreases ids.len(),
{
    if ids.len() > 1 {
        let k = ids.len() as int;
        let pq = spec_closest(vm, k);
        let new_id = (n + (n - ids.len())) as usize;
        lemma_go_len(
            rebuild_vm(vm, szs, pq.0, pq.1, method, k),
            rebuild_ids(ids, pq.0, pq.1, new_id),
            rebuild_szs(szs, pq.0, pq.1),
            method,
            n,
        );
    }
}

/// The identity positions of `n` leaves.
pub open spec fn ident_ids(n: int) -> Seq<usize> {
    Seq::new(n as nat, |i: int| i as usize)
}

/// Singleton sizes for `n` leaves.
pub open spec fn ones_szs(n: int) -> Seq<usize> {
    Seq::new(n as nat, |i: int| 1usize)
}

/// The recorded steps realize the step values, entry by entry.
pub open spec fn steps_match(steps: Seq<MergeStep>, sv: Seq<(usize, usize, int, (int, int))>) -> bool {
    &&& steps.len() == sv.len()
    &&& forall|t: int|
        0 <= t < steps.len() ==> (#[trigger] steps[t]).cluster1 == sv[t].0 && steps[t].cluster2
            == sv[t].1 && steps[t].size == sv[t].2 && steps[t].dissim.num.value() == sv[t].3.0
            && steps[t].dissim.den.value() == sv[t].3.1
}

/// A square matrix of well-formed dissimilarities.
pub open spec fn matrix_wf(m: Seq<Vec<Dissim>>, k: int) -> bool {
    &&& m.len() == k
    &&& forall|p: int| 0 <= p < k ==> (#[trigger] m[p])@.len() == k
    &&& forall|p: int, q: int| 0 <= p < k && 0 <= q < k ==> (#[trigger] m[p]@[q]).wf()
}

/// The first recorded merge joins two leaves at a dissimilarity no
/// larger than any other pair's in the given matrix.
pub open spec fn first_step_minimal(steps: Seq<MergeStep>, mat: Seq<Vec<Dissim>>, n: int) -> bool {
    let c1 = steps[0].cluster1 as int;
    let c2 = steps[0].cluster2 as int;
    &&& c1 < c2 < n
    &&& steps[0].dissim.num.value() == mat[c1]@[c2].num.value()
    &&& steps[0].dissim.den.value() == mat[c1]@[c2].den.value()
    &&& forall|p: int, q: int| 0 <= p < q < n ==> !mat_lt(mat, p, q, c1, c2)
}

/// Builds the dendrogram: repeatedly merges the pair of live clusters
/// with the smallest dissimilarity and updates the remaining
/// dissimilarities by the Lance-Williams rule of the chosen method.
/// The contract states the tree's structure - `n - 1` well-formed
/// steps with additive sizes - and pins every recorded step, ids,
/// size and dissimilarity value alike, to the round-by-round trace
/// `spec_linkage_go` of the given matrix.
#[verifier::rlimit(100)]
pub fn linkage(mat: Vec<Vec<Dissim>>, n: usize, method: LinkageMethod) -> (r: Vec<MergeStep>)
    requires
        1 <= n <= 0x7fff_ffff,
        matrix_wf(mat@, n as int),
    ensures
        valid_steps(r@, n as int),
        steps_sized(r@, n as int),
        r@.len() == n - 1,
        r@.len() >= 1 ==> first_step_minimal(r@, mat@, n as int),
        steps_match(
            r@,
            spec_linkage_go(
                vals_of(mat@, n as int),
                ident_ids(n as int),
                ones_szs(n as int),
                method,
                n as int,
            ),
        ),
{
    let mut ids: Vec<usize> = Vec::new();
    let mut szs: Vec<usize> = Vec::new();
    let mut i: usize = 0;
    while i < n
        invariant
            i <= n,
            ids@.len() == i,
            szs@.len() == i,
            forall|p: int| 0 <= p < i ==> (#[trigger] ids@[p]) == p,
            forall|p: int| 0 <= p < i ==> (#[trigger] szs@[p]) == 1,
            sum_sizes(szs@) == i,
        decreases n - i,
    {
        proof {
            assert(szs@.push(1usize).drop_last() =~= szs@);
        }
        ids.push(i);
        szs.push(1);
        i += 1;
    }
    let mut m = mat;
    let ghost mat0 = m@;
    let ghost sfull = spec_linkage_go(
        vals_of(mat0, n as int),
        ident_ids(n as int),
        ones_szs(n as int),
        method,
        n as int,
    );
    let mut steps: Vec<MergeStep> = Vec::new();
    proof {
        assert forall|p: int, q: int| 0 <= p < ids@.len() && 0 <= q < ids@.len() && p != q
            implies ids@[p] != ids@[q] by {}
        assert(ids@ =~= ident_ids(n as int));
        assert(szs@ =~= ones_szs(n as int));
        assert(sfull.skip(0) =~= sfull);
        assert(steps_match(steps@, sfull.take(0)));
        lemma_go_len(
            vals_of(mat0, n as int),
            ident_ids(n as int),
            ones_szs(n as int),
            method,
            n as int,
        );
    }
    while ids.len() > 1
        invariant
            1 <= ids@.len() <= n,
            n <= 0x7fff_ffff,
            ids@.len() + steps@.len() == n,
            szs@.len() == ids@.len(),
            matrix_wf(m@, ids@.len() as int),
            valid_steps(steps@, n as int),
            steps_sized(steps@, n as int),
            forall|p: int| 0 <= p < ids@.len() ==> (#[trigger] ids@[p]) < n + steps@.len(),
            forall|p: int|
                0 <= p < ids@.len() ==> fresh_at(steps@, (#[trigger] ids@[p]) as int,
                steps@.len() as int),
            forall|p: int, q: int|
                0 <= p < ids@.len() && 0 <= q < ids@.len() && p != q ==> (#[trigger] ids@[p])
                    != (#[trigger] ids@[q]),
            forall|p: int|
                0 <= p < szs@.len() ==> 1 <= (#[trigger] szs@[p]) && szs@[p] == csize(
                    steps@,
                    n as int,
                    ids@[p] as int,
                ),
            sum_sizes(szs@) == n,
            mat0.len() == n,
            steps@.len() == 0 ==> m@ == mat0 && forall|p2: int|
                0 <= p2 < ids@.len() ==> (#[trigger] ids@[p2]) == p2,
            steps@.len() >= 1 ==> first_step_minimal(steps@, mat0, n as int),
            sfull == spec_linkage_go(
                vals_of(mat0, n as int),
                ident_ids(n as int),
                ones_szs(n as int),
                method,
                n as int,
            ),
            sfull.len() == n - 1,
            steps_match(steps@, sfull.take(steps@.len() as int)),
            spec_linkage_go(vals_of(m@, ids@.len() as int), ids@, szs@, method, n as int)
                == sfull.skip(steps@.len() as int),
        decreases ids@.len(),
    {
        let k = ids.len();
        let (bp, bq) = closest_pair(&m, k);
        let ghost vm0 = vals_of(m@, k as int);
        proof {
            assert(closest_ok(vm0, k as int, (bp as int, bq as int))) by {
                assert forall|p: int, q: int| 0 <= p < q < k implies !(#[trigger] vm_lt(
                    vm0,
                    p,
                    q,
                    bp as int,
                    bq as int,
                )) by {
                    assert(!mat_lt(m@, p, q, bp as int, bq as int));
                }
                assert forall|p: int, q: int|
                    0 <= p < q < k && (p < bp || (p == bp && q < bq)) implies #[trigger] vm_lt(
                    vm0,
                    bp as int,
                    bq as int,
                    p,
                    q,
                ) by {
                    assert(mat_lt(m@, bp as int, bq as int, p, q));
                }
            }
            let spq = spec_closest(vm0, k as int);
            assert(closest_ok(vm0, k as int, spq)) by {
                assert(closest_ok(vm0, k as int, (bp as int, bq as int)));
            }
            lemma_closest_unique(vm0, k as int, spq, (bp as int, bq as int));
            assert(spec_closest(vm0, k as int) == (bp as int, bq as int));
        }
        let new_id = n + steps.len();
        proof {
            lemma_entry_le_sum(szs@.remove(bq as int), bp as int);
            lemma_sum_remove(szs@, bq as int);
            assert(szs@.remove(bq as int)[bp as int] == szs@[bp as int]);
        }
        let new_size = szs[bp] + szs[bq];
        let step = MergeStep {
            cluster1: ids[bp],
            cluster2: ids[bq],
            size: new_size,
            dissim: m[bp][bq].duplicate(),
        };
        let ghost old_steps = steps@;
        let ghost old_ids = ids@;
        let ghost old_szs = szs@;
        steps.push(step);
        proof {
            let t = old_steps.len() as int;
            assert(steps@ =~= old_steps.push(step));
            assert forall|j: int| 0 <= j < t implies #[trigger] steps@[j] == old_steps[j] by {}
            assert(steps@[t] == step);
            if t == 0 {
                assert(ids@[bp as int] == bp && ids@[bq as int] == bq);
                assert(steps@[0].cluster1 == bp && steps@[0].cluster2 == bq);
                assert(first_step_minimal(steps@, mat0, n as int));
            } else {
                assert(steps@[0] == old_steps[0]);
                assert(first_step_minimal(steps@, mat0, n as int));
            }
            // the new step is valid
            assert(valid_step(steps@, n as int, t)) by {
                assert(steps@[t].cluster1 == old_ids[bp as int]);
                assert(steps@[t].cluster2 == old_ids[bq as int]);
                assert(old_ids[bp as int] != old_ids[bq as int]);
                assert(fresh_at(old_steps, old_ids[bp as int] as int, t));
                assert(fresh_at(steps@, old_ids[bp as int] as int, t)) by {
                    assert(forall|j: int|
                        0 <= j < t ==> (#[trigger] steps@[j]).cluster1 != old_ids[bp as int]
                            && steps@[j].cluster2 != old_ids[bp as int]);
                }
                assert(fresh_at(steps@, old_ids[bq as int] as int, t)) by {
                    assert(forall|j: int|
                        0 <= j < t ==> (#[trigger] steps@[j]).cluster1 != old_ids[bq as int]
                            && steps@[j].cluster2 != old_ids[bq as int]);
                }
            }
            assert forall|i2: int| 0 <= i2 < steps@.len() implies #[trigger] valid_step(
                steps@,
                n as int,
                i2,
            ) by {
                if i2 < t {
                    assert(valid_step(old_steps, n as int, i2));
                    assert(fresh_at(steps@, steps@[i2].cluster1 as int, i2)) by {
                        assert(forall|j: int|
                            0 <= j < i2 ==> (#[trigger] steps@[j]).cluster1
                                != steps@[i2].cluster1 && steps@[j].cluster2
                                != steps@[i2].cluster1);
                    }
                    assert(fresh_at(steps@, steps@[i2].cluster2 as int, i2)) by {
                        assert(forall|j: int|
                            0 <= j < i2 ==> (#[trigger] steps@[j]).cluster1
                                != steps@[i2].cluster2 && steps@[j].cluster2
                                != steps@[i2].cluster2);
                    }
                }
            }
            // sizes recorded by old steps are untouched; the new step's
            // size is the sum of the two merged clusters' sizes
            assert forall|i2: int| 0 <= i2 < steps@.len() implies (#[trigger] steps@[i2]).size
                == csize(steps@, n as int, steps@[i2].cluster1 as int) + csize(
                steps@,
                n as int,
                steps@[i2].cluster2 as int,
            ) by {
                if i2 < t {
                    assert(old_steps[i2].size == csize(old_steps, n as int,
                        old_steps[i2].cluster1 as int) + csize(old_steps, n as int,
                        old_steps[i2].cluster2 as int));
                    assert(valid_step(old_steps, n as int, i2));
                    let cc1 = old_steps[i2].cluster1 as int;
                    let cc2 = old_steps[i2].cluster2 as int;
                    assert(cc1 < n + i2 && cc2 < n + i2);
                    if cc1 >= n {
                        assert(steps@[cc1 - n] == old_steps[cc1 - n]);
                    }
                    if cc2 >= n {
                        assert(steps@[cc2 - n] == old_steps[cc2 - n]);
                    }
                    assert(csize(steps@, n as int, old_steps[i2].cluster1 as int) == csize(
                        old_steps,
                        n as int,
                        old_steps[i2].cluster1 as int,
                    ));
                    assert(csize(steps@, n as int, old_steps[i2].cluster2 as int) == csize(
                        old_steps,
                        n as int,
                        old_steps[i2].cluster2 as int,
                    ));
                } else {
                    let c1 = old_ids[bp as int] as int;
                    let c2 = old_ids[bq as int] as int;
                    assert(old_szs[bp as int] == csize(old_steps, n as int, c1));
                    assert(old_szs[bq as int] == csize(old_steps, n as int, c2));
                    assert(csize(steps@, n as int, c1) == csize(old_steps, n as int, c1));
                    assert(csize(steps@, n as int, c2) == csize(old_steps, n as int, c2));
                    assert(steps@[t].cluster1 == c1 && steps@[t].cluster2 == c2);
                }
            }
        }
        // merge the live lists: drop positions bp and bq, append the
        // merged cluster; keep records which old position each kept
        // entry came from
        let mut keep: Vec<usize> = Vec::new();
        let mut new_ids: Vec<usize> = Vec::new();
        let mut new_szs: Vec<usize> = Vec::new();
        let mut r2: usize = 0;
        while r2 < k
            invariant
                k == old_ids.len(),
                bp < bq < k,
                r2 <= k,
                old_szs.len() == k,
                ids@ == old_ids,
                szs@ == old_szs,
                keep@.len() == new_ids@.len(),
                keep@.len() == new_szs@.len(),
                keep@.len() == r2 - (if r2 > bp {
                    1int
                } else {
                    0
                }) - (if r2 > bq {
                    1int
                } else {
                    0
                }),
                forall|w: int|
                    0 <= w < keep@.len() ==> (#[trigger] keep@[w]) < r2 && keep@[w] != bp
                        && keep@[w] != bq,
                forall|w: int|
                    0 <= w < keep@.len() ==> (#[trigger] keep@[w]) == keep_idx(
                        bp as int,
                        bq as int,
                        w,
                    ),
                forall|w: int|
                    0 <= w < keep@.len() ==> new_ids@[w] == old_ids[(#[trigger] keep@[w]) as int]
                        && new_szs@[w] == old_szs[keep@[w] as int],
                forall|w: int, w2: int|
                    0 <= w < w2 < keep@.len() ==> (#[trigger] keep@[w]) < (
                    #[trigger] keep@[w2]),
                sum_sizes(new_szs@) == sum_sizes(old_szs.take(r2 as int)) - (if r2 > bp {
                    old_szs[bp as int] as int
                } else {
                    0
                }) - (if r2 > bq {
                    old_szs[bq as int] as int
                } else {
                    0
                }),
            decreases k - r2,
        {
            proof {
                assert(old_szs.take(r2 + 1).drop_last() =~= old_szs.take(r2 as int));
                assert(old_szs.take(r2 + 1).last() == old_szs[r2 as int]);
            }
            if r2 != bp && r2 != bq {
                let ghost prev_szs = new_szs@;
                keep.push(r2);
                new_ids.push(ids[r2]);
                new_szs.push(szs[r2]);
                proof {
                    assert(new_szs@.drop_last() =~= prev_szs);
                    assert(sum_sizes(new_szs@) == sum_sizes(prev_szs) + old_szs[r2 as int]);
                }
            }
            r2 += 1;
        }
        proof {
            assert(old_szs.take(k as int) =~= old_szs);
        }
        let nk = new_ids.len();
        // the merged dissimilarities to every remaining cluster
        let mut new_row: Vec<Dissim> = Vec::new();
        let mut r3: usize = 0;
        while r3 < k
            invariant
                k == ids@.len(),
                matrix_wf(m@, k as int),
                bp < bq < k,
                r3 <= k,
                szs@.len() == k,
                forall|w: int| 0 <= w < szs@.len() ==> 1 <= (#[trigger] szs@[w]),
                new_row@.len() == r3,
                forall|w: int| 0 <= w < r3 ==> (#[trigger] new_row@[w]).wf(),
                vm0 == vals_of(m@, k as int),
                forall|w: int|
                    0 <= w < r3 && w != bp && w != bq ==> ((#[trigger] new_row@[w]).num.value(),
                    new_row@[w].den.value()) == lw_at(vm0, szs@, bp as int, bq as int, w, method),
                n <= 0x7fff_ffff,
                sum_sizes(szs@) == n,
            decreases k - r3,
        {
            if r3 != bp && r3 != bq {
                proof {
                    lemma_entry_le_sum(szs@, bp as int);
                    lemma_entry_le_sum(szs@, bq as int);
                    lemma_entry_le_sum(szs@, r3 as int);
                }
                let d = lance_williams(
                    method,
                    &m[bp][r3],
                    &m[bq][r3],
                    &m[bp][bq],
                    szs[bp],
                    szs[bq],
                    szs[r3],
                );
                new_row.push(d);
            } else {
                new_row.push(zero_dissim());
            }
            r3 += 1;
        }
        // rebuild the dissimilarity matrix over the remaining clusters
        let mut nm: Vec<Vec<Dissim>> = Vec::new();
        let mut a2: usize = 0;
        let ghost rbv = rebuild_vm(vm0, szs@, bp as int, bq as int, method, k as int);
        while a2 < nk + 1
            invariant
                nk + 1 <= k,
                nk == k - 2,
                bp < bq < k,
                keep@.len() == nk,
                k == ids@.len(),
                szs@.len() == k,
                matrix_wf(m@, k as int),
                forall|w: int| 0 <= w < nk ==> (#[trigger] keep@[w]) < k && keep@[w] != bp
                    && keep@[w] != bq && keep@[w] == keep_idx(bp as int, bq as int, w),
                new_row@.len() == k,
                forall|w: int| 0 <= w < k ==> (#[trigger] new_row@[w]).wf(),
                vm0 == vals_of(m@, k as int),
                rbv == rebuild_vm(vm0, szs@, bp as int, bq as int, method, k as int),
                forall|w: int|
                    0 <= w < k && w != bp && w != bq ==> ((#[trigger] new_row@[w]).num.value(),
                    new_row@[w].den.value()) == lw_at(vm0, szs@, bp as int, bq as int, w, method),
                a2 <= nk + 1,
                nm@.len() == a2,
                forall|w: int| 0 <= w < a2 ==> (#[trigger] nm@[w])@.len() == nk + 1,
                forall|w: int, w2: int|
                    0 <= w < a2 && 0 <= w2 < nk + 1 ==> (#[trigger] nm@[w]@[w2]).wf()
                        && (nm@[w]@[w2].num.value(), nm@[w]@[w2].den.value()) == rbv[w][w2],
            decreases nk + 1 - a2,
        {
            let mut row: Vec<Dissim> = Vec::new();
            let mut b2: usize = 0;
            while b2 < nk + 1
                invariant
                    nk + 1 <= k,
                    nk == k - 2,
                    bp < bq < k,
                    keep@.len() == nk,
                    k == ids@.len(),
                    szs@.len() == k,
                    matrix_wf(m@, k as int),
                    forall|w: int| 0 <= w < nk ==> (#[trigger] keep@[w]) < k && keep@[w] != bp
                        && keep@[w] != bq && keep@[w] == keep_idx(bp as int, bq as int, w),
                    new_row@.len() == k,
                    forall|w: int| 0 <= w < k ==> (#[trigger] new_row@[w]).wf(),
                    vm0 == vals_of(m@, k as int),
                    rbv == rebuild_vm(vm0, szs@, bp as int, bq as int, method, k as int),
                    forall|w: int|
                        0 <= w < k && w != bp && w != bq ==> ((
                        #[trigger] new_row@[w]).num.value(), new_row@[w].den.value()) == lw_at(
                            vm0,
                            szs@,
                            bp as int,
                            bq as int,
                            w,
                            method,
                        ),
                    a2 < nk + 1,
                    b2 <= nk + 1,
                    row@.len() == b2,
                    forall|w: int|
                        0 <= w < b2 ==> (#[trigger] row@[w]).wf() && (row@[w].num.value(),
                        row@[w].den.value()) == rbv[a2 as int][w],
                decreases nk + 1 - b2,
            {
                if a2 < nk && b2 < nk {
                    let d = m[keep[a2]][keep[b2]].duplicate();
                    proof {
                        assert(keep@[a2 as int] == keep_idx(bp as int, bq as int, a2 as int));
                        assert(keep@[b2 as int] == keep_idx(bp as int, bq as int, b2 as int));
                        assert(vm0[keep@[a2 as int] as int][keep@[b2 as int] as int] == (
                        m@[keep@[a2 as int] as int]@[keep@[b2 as int] as int].num.value(),
                        m@[keep@[a2 as int] as int]@[keep@[b2 as int] as int].den.value()));
                        assert((d.num.value(), d.den.value()) == rbv[a2 as int][b2 as int]);
                    }
                    row.push(d);
                } else if a2 < nk {
                    let d = new_row[keep[a2]].duplicate();
                    proof {
                        assert(keep@[a2 as int] == keep_idx(bp as int, bq as int, a2 as int));
                        assert((d.num.value(), d.den.value()) == rbv[a2 as int][b2 as int]);
                    }
                    row.push(d);
                } else if b2 < nk {
                    let d = new_row[keep[b2]].duplicate();
                    proof {
                        assert(keep@[b2 as int] == keep_idx(bp as int, bq as int, b2 as int));
                        assert((d.num.value(), d.den.value()) == rbv[a2 as int][b2 as int]);
                    }
                    row.push(d);
                } else {
                    let d = zero_dissim();
                    proof {
                        assert(rbv[a2 as int][b2 as int] == (0int, 1int));
                    }
                    row.push(d);
                }
                b2 += 1;
            }
            nm.push(row);
            a2 += 1;
        }
        let ghost fin_szs = new_szs@;
        new_ids.push(new_id);
        new_szs.push(new_size);
        ids = new_ids;
        szs = new_szs;
        m = nm;
        proof {
            let t = steps@.len() as int;
            assert(ids@[ids@.len() - 1] == new_id && szs@[szs@.len() - 1] == new_size);
            assert(szs@.drop_last() =~= fin_szs);
            assert(sum_sizes(fin_szs) == n - old_szs[bp as int] - old_szs[bq as int]);
            assert(szs@.last() == new_size);
            assert(sum_sizes(szs@) == sum_sizes(szs@.drop_last()) + szs@.last());
            assert forall|w: int| 0 <= w < ids@.len() - 1 implies ids@[w] == old_ids[(
            #[trigger] keep@[w]) as int] && szs@[w] == old_szs[keep@[w] as int] && keep@[w] < k
                && keep@[w] != bp && keep@[w] != bq by {}
            assert forall|w: int| 0 <= w < ids@.len() implies (#[trigger] ids@[w]) < n + t by {
                if w < ids@.len() - 1 {
                    assert(ids@[w] == old_ids[keep@[w] as int]);
                    assert(old_ids[keep@[w] as int] < n + t - 1);
                }
            }
            assert forall|w: int| 0 <= w < ids@.len() implies fresh_at(
                steps@,
                (#[trigger] ids@[w]) as int,
                t,
            ) by {
                if w < ids@.len() - 1 {
                    let v = keep@[w] as int;
                    assert(ids@[w] == old_ids[v]);
                    assert(fresh_at(old_steps, old_ids[v] as int, t - 1));
                    assert(old_ids[v] != old_ids[bp as int] && old_ids[v] != old_ids[
                        bq as int]);
                    assert(forall|j: int|
                        0 <= j < t ==> (#[trigger] steps@[j]).cluster1 != ids@[w]
                            && steps@[j].cluster2 != ids@[w]);
                } else {
                    assert(ids@[w] == n + t - 1);
                    assert(forall|j: int|
                        0 <= j < t ==> (#[trigger] steps@[j]).cluster1 != ids@[w]
                            && steps@[j].cluster2 != ids@[w]);
                }
            }
            assert forall|w: int, w2: int|
                0 <= w < ids@.len() && 0 <= w2 < ids@.len() && w != w2
                    implies (#[trigger] ids@[w]) != (#[trigger] ids@[w2]) by {
                if w < ids@.len() - 1 && w2 < ids@.len() - 1 {
                    let v = keep@[w] as int;
                    let v2 = keep@[w2] as int;
                    assert(v != v2);
                    assert(old_ids[v] != old_ids[v2]);
                } else if w == ids@.len() - 1 {
                    assert(ids@[w] == n + t - 1);
                    assert(ids@[w2] == old_ids[keep@[w2] as int]);
                    assert(old_ids[keep@[w2] as int] < n + t - 1);
                } else {
                    assert(ids@[w2] == n + t - 1);
                    assert(ids@[w] == old_ids[keep@[w] as int]);
                    assert(old_ids[keep@[w] as int] < n + t - 1);
                }
            }
            assert forall|w: int| 0 <= w < szs@.len() implies 1 <= (#[trigger] szs@[w])
                && szs@[w] == csize(steps@, n as int, ids@[w] as int) by {
                if w < szs@.len() - 1 {
                    let v = keep@[w] as int;
                    assert(szs@[w] == old_szs[v] && ids@[w] == old_ids[v]);
                    assert(old_szs[v] == csize(old_steps, n as int, old_ids[v] as int));
                    assert(csize(steps@, n as int, old_ids[v] as int) == csize(
                        old_steps,
                        n as int,
                        old_ids[v] as int,
                    ));
                } else {
                    assert(ids@[w] == n + t - 1);
                    assert(csize(steps@, n as int, n + t - 1) == steps@[t - 1].size as int);
                }
            }
            // the new state realizes the spec-level rebuild, so the
            // remaining spec steps are those of the new state
            let rbv = rebuild_vm(vm0, old_szs, bp as int, bq as int, method, k as int);
            assert(vals_of(m@, ids@.len() as int) =~~= rbv) by {
                assert forall|a: int, b: int|
                    0 <= a < k - 1 && 0 <= b < k - 1 implies (#[trigger] vals_of(
                    m@,
                    ids@.len() as int,
                )[a][b]) == rbv[a][b] by {
                    assert(vals_of(m@, ids@.len() as int)[a][b] == (m@[a]@[b].num.value(),
                    m@[a]@[b].den.value()));
                }
            }
            assert(ids@ =~= rebuild_ids(old_ids, bp as int, bq as int, new_id)) by {
                assert forall|w: int| 0 <= w < k - 1 implies ids@[w] == rebuild_ids(
                    old_ids,
                    bp as int,
                    bq as int,
                    new_id,
                )[w] by {
                    if w < k - 2 {
                        assert(ids@[w] == old_ids[keep@[w] as int]);
                        assert(keep@[w] == keep_idx(bp as int, bq as int, w));
                    }
                }
            }
            assert(szs@ =~= rebuild_szs(old_szs, bp as int, bq as int)) by {
                assert forall|w: int| 0 <= w < k - 1 implies szs@[w] == rebuild_szs(
                    old_szs,
                    bp as int,
                    bq as int,
                )[w] by {
                    if w < k - 2 {
                        assert(szs@[w] == old_szs[keep@[w] as int]);
                        assert(keep@[w] == keep_idx(bp as int, bq as int, w));
                    }
                }
            }
            assert(steps@.take(t - 1) =~= old_steps);
            lemma_linkage_round(
                sfull,
                vm0,
                old_ids,
                old_szs,
                vals_of(m@, ids@.len() as int),
                ids@,
                szs@,
                steps@,
                method,
                n as int,
                k as int,
                t,
                bp as int,
                bq as int,
                new_id,
            );
        }
    }
    proof {
        assert(ids@.len() == 1);
        assert(spec_linkage_go(vals_of(m@, 1), ids@, szs@, method, n as int) =~= Seq::<(
            usize,
            usize,
            int,
            (int, int),
        )>::empty());
        assert(steps_match(steps@, sfull.take(steps@.len() as int)));
        assert(sfull.len() == steps@.len());
        assert(sfull.take(steps@.len() as int) =~= sfull);
    }
    steps
}

/// How often `l` occurs in `ls`.
fn count_i32(ls: &Vec<i32>, l: i32) -> (r: usize)
    ensures
        r == crate::knn::lbl_count(ls@, l),
{
    let mut cnt: usize = 0;
    let mut i: usize = 0;
    proof {
        assert(ls@.take(0) =~= Seq::<i32>::empty());
    }
    while i < ls.len()
        invariant
            i <= ls@.len(),
            cnt <= i,
            cnt == crate::knn::lbl_count(ls@.take(i as int), l),
        decreases ls@.len() - i,
    {
        proof {
            assert(ls@.take(i + 1).drop_last() =~= ls@.take(i as int));
            assert(ls@.take(i + 1).last() == ls@[i as int]);
        }
        if ls[i] == l {
            cnt += 1;
        }
        i += 1;
    }
    proof {
        assert(ls@.take(ls@.len() as int) =~= ls@);
    }
    cnt
}

/// The most frequent label of `ls`, ties going to the smallest label
/// value; `None` when `ls` is empty.
pub fn majority_label(ls: &Vec<i32>) -> (r: Option<i32>)
    ensures
        r == crate::knn::spec_major(ls@),
{
    let mut best: Option<i32> = None;
    let mut i: usize = 0;
    while i < ls.len()
        invariant
            i <= ls@.len(),
            best == crate::knn::spec_major_upto(ls@, i as int),
        decreases ls@.len() - i,
    {
        let l = ls[i];
        match best {
            None => {
                best = Some(l);
            },
            Some(b) => {
                let cl = count_i32(ls, l);
                let cb = count_i32(ls, b);
                if cl > cb || (cl == cb && l < b) {
                    best = Some(l);
                }
            },
        }
        i += 1;
    }
    best
}

/// The labels of the training samples whose set representative is
/// `root`, in corpus order.
pub open spec fn member_labels(
    parents: Seq<usize>,
    train: Seq<crate::LabeledSample>,
    root: int,
    m: int,
) -> Seq<i32>
    decreases m,
{
    if m <= 0 {
        Seq::empty()
    } else {
        let p = member_labels(parents, train, root, m - 1);
        if root_of(parents, m - 1) == root {
            p.push(train[m - 1].label)
        } else {
            p
        }
    }
}

fn collect_member_labels(
    uf: &UnionFind,
    train: &Vec<crate::LabeledSample>,
    root: usize,
) -> (r: Vec<i32>)
    requires
        uf.wf(),
    ensures
        r@ == member_labels(uf.parent@, train@, root as int, train@.len() as int),
{
    let mut out: Vec<i32> = Vec::new();
    let mut i: usize = 0;
    while i < train.len()
        invariant
            i <= train@.len(),
            uf.wf(),
            out@ == member_labels(uf.parent@, train@, root as int, i as int),
        decreases train@.len() - i,
    {
        if uf.find(i) == root {
            out.push(train[i].label);
        }
        i += 1;
    }
    out
}

/// The label of the cluster rooted at `root`: the majority label of its
/// members, ties going to the smallest label value; the neutral label 2
/// for a cluster without members.
pub fn cluster_label(uf: &UnionFind, train: &Vec<crate::LabeledSample>, root: usize) -> (r:
    i32)
    requires
        uf.wf(),
    ensures
        r == (match crate::knn::spec_major(
            member_labels(uf.parent@, train@, root as int, train@.len() as int),
        ) {
            Some(l) => l,
            None => 2,
        }),
{
    let members = collect_member_labels(uf, train, root);
    match majority_label(&members) {
        Some(l) => l,
        None => 2,
    }
}

/// The distances of a query word set to every training word set, with
/// the empty-against-empty distance 1.
pub open spec fn spec_cdists(q: Set<Seq<char>>, pts: Seq<crate::tokenset::TokenSet>) -> Seq<
    crate::frac::Frac,
> {
    Seq::new(pts.len(), |i: int| crate::tokenset::spec_jaccard(q, pts[i].tokens(), true))
}

pub fn compute_cdists(q: &crate::tokenset::TokenSet, pts: &Vec<crate::tokenset::TokenSet>) -> (r:
    Vec<crate::frac::Frac>)
    requires
        q.wf(),
        forall|i: int| 0 <= i < pts@.len() ==> (#[trigger] pts@[i]).wf(),
    ensures
        r@ == spec_cdists(q.tokens(), pts@),
        crate::knn::dists_wf(r@),
{
    let mut out: Vec<crate::frac::Frac> = Vec::new();
    let mut i: usize = 0;
    while i < pts.len()
        invariant
            i <= pts@.len(),
            q.wf(),
            forall|j: int| 0 <= j < pts@.len() ==> (#[trigger] pts@[j]).wf(),
            out@.len() == i,
            forall|j: int| 0 <= j < i ==> (#[trigger] out@[j]) == spec_cdists(
                q.tokens(),
                pts@,
            )[j],
            crate::knn::dists_wf(out@),
        decreases pts@.len() - i,
    {
        let d = crate::tokenset::jaccard(q, &pts[i], true);
        out.push(d);
        i += 1;
    }
    proof {
        assert(out@ =~= spec_cdists(q.tokens(), pts@));
    }
    out
}

/// The running nearest neighbour after scanning positions up to `j`:
/// a sample replaces the best only with a strictly smaller distance,
/// so ties keep the earlier sample.
pub open spec fn spec_nn_from(ds: Seq<crate::frac::Frac>, j: int, b: int) -> int
    decreases ds.len() - j,
{
    if j < 0 || j >= ds.len() {
        b
    } else if ds[j].spec_lt(ds[b]) {
        spec_nn_from(ds, j + 1, j)
    } else {
        spec_nn_from(ds, j + 1, b)
    }
}

/// The index of the nearest sample: the first index of minimal
/// distance.
pub open spec fn spec_nn(ds: Seq<crate::frac::Frac>) -> int {
    spec_nn_from(ds, 1, 0)
}

/// The index of the training sample closest to the query: strictly
/// smaller distance wins, equal distances go to the sample encountered
/// first.
pub fn nearest_neighbor(ds: &Vec<crate::frac::Frac>) -> (r: usize)
    requires
        ds@.len() >= 1,
        crate::knn::dists_wf(ds@),
    ensures
        r < ds@.len(),
        r as int == spec_nn(ds@),
        forall|j: int|
            0 <= j < ds@.len() && j != r ==> crate::knn::key_lt(ds@, r as int, j),
{
    let mut best: usize = 0;
    let mut j: usize = 1;
    while j < ds.len()
        invariant
            ds@.len() >= 1,
            crate::knn::dists_wf(ds@),
            best < j <= ds@.len(),
            spec_nn(ds@) == spec_nn_from(ds@, j as int, best as int),
            forall|j2: int|
                0 <= j2 < j && j2 != best ==> crate::knn::key_lt(ds@, best as int, j2),
        decreases ds@.len() - j,
    {
        if ds[j].lt(&ds[best]) {
            proof {
                assert(crate::knn::key_lt(ds@, j as int, best as int));
                assert forall|j2: int| 0 <= j2 < j + 1 && j2 != j implies crate::knn::key_lt(
                    ds@,
                    j as int,
                    j2,
                ) by {
                    if j2 != best {
                        crate::knn::lemma_key_trans(ds@, j as int, best as int, j2);
                    }
                }
            }
            best = j;
        } else {
            proof {
                assert(!ds@[j as int].spec_lt(ds@[best as int]));
                assert(crate::knn::key_lt(ds@, best as int, j as int));
            }
        }
        j += 1;
    }
    best
}

/// The Jaccard distance of two points of the matrix.
pub open spec fn spec_point_dist(
    points: Seq<crate::tokenset::TokenSet>,
    i: int,
    j: int,
) -> crate::frac::Frac {
    crate::tokenset::spec_jaccard(points[i].tokens(), points[j].tokens(), true)
}

/// Builds the full matrix of pairwise Jaccard distances of the word
/// sets, as exact dissimilarities.
pub fn distance_matrix(points: &Vec<crate::tokenset::TokenSet>) -> (r: Vec<Vec<Dissim>>)
    requires
        forall|i: int| 0 <= i < points@.len() ==> (#[trigger] points@[i]).wf(),
    ensures
        matrix_wf(r@, points@.len() as int),
        forall|i: int, j: int|
            0 <= i < points@.len() && 0 <= j < points@.len() ==> (#[trigger] r@[i]@[j])
                .num.value() == spec_point_dist(points@, i, j).num && r@[i]@[j].den.value()
                == spec_point_dist(points@, i, j).den,
{
    let n = points.len();
    let mut out: Vec<Vec<Dissim>> = Vec::new();
    let mut i: usize = 0;
    while i < n
        invariant
            i <= n,
            n == points@.len(),
            forall|w: int| 0 <= w < n ==> (#[trigger] points@[w]).wf(),
            out@.len() == i,
            forall|w: int| 0 <= w < i ==> (#[trigger] out@[w])@.len() == n,
            forall|w: int, w2: int|
                0 <= w < i && 0 <= w2 < n ==> (#[trigger] out@[w]@[w2]).wf()
                    && out@[w]@[w2].num.value() == spec_point_dist(points@, w, w2).num
                    && out@[w]@[w2].den.value() == spec_point_dist(points@, w, w2).den,
        decreases n - i,
    {
        let mut row: Vec<Dissim> = Vec::new();
        let mut j: usize = 0;
        while j < n
            invariant
                j <= n,
                i < n,
                n == points@.len(),
                forall|w: int| 0 <= w < n ==> (#[trigger] points@[w]).wf(),
                row@.len() == j,
                forall|w: int|
                    0 <= w < j ==> (#[trigger] row@[w]).wf() && row@[w].num.value()
                        == spec_point_dist(points@, i as int, w).num && row@[w].den.value()
                        == spec_point_dist(points@, i as int, w).den,
            decreases n - j,
        {
            let f = crate::tokenset::jaccard(&points[i], &points[j], true);
            let d = Dissim { num: BigNat::from_u64(f.num), den: BigNat::from_u64(f.den) };
            row.push(d);
            j += 1;
        }
        out.push(row);
        i += 1;
    }
    out
}


/// The labels of the corpus samples among the first `i` that the cut
/// forest places in the same cluster as id `x`, in corpus order.
pub open spec fn spec_cluster_labels_upto(
    steps: Seq<MergeStep>,
    n: int,
    m: int,
    tweets: Seq<crate::LabeledSample>,
    x: int,
    i: int,
) -> Seq<i32>
    decreases i,
{
    if i <= 0 {
        Seq::empty()
    } else {
        let p = spec_cluster_labels_upto(steps, n, m, tweets, x, i - 1);
        if dendro_cluster(steps, n, m, i - 1) == dendro_cluster(steps, n, m, x) {
            p.push(tweets[i - 1].label)
        } else {
            p
        }
    }
}

/// The label the cut forest assigns to the cluster of id `x`: the
/// majority label of its members, ties to the smallest label value,
/// neutral for a memberless cluster.
pub open spec fn spec_cut_label(
    steps: Seq<MergeStep>,
    n: int,
    m: int,
    tweets: Seq<crate::LabeledSample>,
    x: int,
) -> i32 {
    match crate::knn::spec_major(
        spec_cluster_labels_upto(steps, n, m, tweets, x, tweets.len() as int),
    ) {
        Some(l) => l,
        None => 2,
    }
}

/// The Jaccard distances of a query text to every corpus text, under
/// the clusterer's tokenisation.
pub open spec fn spec_query_dists(
    query: Seq<char>,
    tweets: Seq<crate::LabeledSample>,
) -> Seq<crate::frac::Frac> {
    Seq::new(
        tweets.len(),
        |i: int|
            crate::tokenset::spec_jaccard(
                crate::token::spec_words_alnum(query).to_set(),
                crate::token::spec_words_alnum(tweets[i].text@).to_set(),
                true,
            ),
    )
}

/// How many merge steps a cut to `k` clusters applies.
pub open spec fn spec_cut_steps(n: int, k: int, total: int) -> int {
    if n > k {
        if n - k > total {
            total
        } else {
            n - k
        }
    } else {
        0
    }
}

/// The Jaccard distance between two corpus texts.
pub open spec fn spec_pair_dist(
    tweets: Seq<crate::LabeledSample>,
    p: int,
    q: int,
) -> crate::frac::Frac {
    crate::tokenset::spec_jaccard(
        crate::token::spec_words_alnum(tweets[p].text@).to_set(),
        crate::token::spec_words_alnum(tweets[q].text@).to_set(),
        true,
    )
}

/// The first recorded merge joins two samples at a pairwise distance
/// no other pair undercuts.
pub open spec fn first_merge_closest(
    steps: Seq<MergeStep>,
    tweets: Seq<crate::LabeledSample>,
) -> bool {
    let c1 = steps[0].cluster1 as int;
    let c2 = steps[0].cluster2 as int;
    &&& c1 < c2 < tweets.len()
    &&& steps[0].dissim.num.value() == spec_pair_dist(tweets, c1, c2).num
    &&& steps[0].dissim.den.value() == spec_pair_dist(tweets, c1, c2).den
    &&& forall|p: int, q: int|
        0 <= p < q < tweets.len() ==> !(#[trigger] spec_pair_dist(tweets, p, q)).spec_lt(
            spec_pair_dist(tweets, c1, c2),
        )
}

/// The label a dendrogram yields for a query: cut to `k` clusters,
/// take the majority label of the cluster of the nearest training
/// neighbour.
pub open spec fn spec_predicted_label(
    steps: Seq<MergeStep>,
    tweets: Seq<crate::LabeledSample>,
    k: int,
    query: Seq<char>,
) -> i32 {
    let n = tweets.len() as int;
    let m = spec_cut_steps(n, k, steps.len() as int);
    spec_cut_label(steps, n, m, tweets, spec_nn(spec_query_dists(query, tweets)))
}

/// Over a cut forest that realizes the dendrogram partition, the
/// member labels of a root are the spec-level cluster labels.
pub proof fn lemma_member_labels_partition(
    parents: Seq<usize>,
    steps: Seq<MergeStep>,
    n: int,
    m: int,
    tweets: Seq<crate::LabeledSample>,
    x: int,
    i: int,
)
    requires
        n == tweets.len(),
        0 <= m,
        0 <= x < n,
        0 <= i <= n,
        forall|a: int, b: int|
            0 <= a < n + m && 0 <= b < n + m ==> ((#[trigger] root_of(parents, a)
                == #[trigger] root_of(parents, b)) <==> dendro_cluster(steps, n, m, a)
                == dendro_cluster(steps, n, m, b)),
    ensures
        member_labels(parents, tweets, root_of(parents, x), i) == spec_cluster_labels_upto(
            steps,
            n,
            m,
            tweets,
            x,
            i,
        ),
    decreases i,
{
    if i > 0 {
        lemma_member_labels_partition(parents, steps, n, m, tweets, x, i - 1);
        assert((root_of(parents, i - 1) == root_of(parents, x)) <==> (dendro_cluster(
            steps,
            n,
            m,
            i - 1,
        ) == dendro_cluster(steps, n, m, x)));
    }
}


/// The pairwise distance values of the corpus texts, as the initial
/// linkage matrix.
pub open spec fn spec_dist_vals(tweets: Seq<crate::LabeledSample>) -> Seq<Seq<(int, int)>> {
    Seq::new(
        tweets.len(),
        |a: int|
            Seq::new(
                tweets.len(),
                |b: int|
                    (
                        spec_pair_dist(tweets, a, b).num as int,
                        spec_pair_dist(tweets, a, b).den as int,
                    ),
            ),
    )
}

/// The dendrogram the clusterer computes for a corpus, as the step
/// values of the linkage trace.
pub open spec fn spec_dendrogram(
    tweets: Seq<crate::LabeledSample>,
    method: LinkageMethod,
) -> Seq<(usize, usize, int, (int, int))> {
    spec_linkage_go(
        spec_dist_vals(tweets),
        ident_ids(tweets.len() as int),
        ones_szs(tweets.len() as int),
        method,
        tweets.len() as int,
    )
}

/// Classifies a tweet by hierarchical clustering: the training corpus
/// is clustered agglomeratively, the dendrogram is cut into `k`
/// clusters, each cluster takes the majority label of its members, and
/// the query receives the label of the cluster of its nearest training
/// neighbour.  Fails with `None` when the corpus is empty or `k`
/// exceeds it; otherwise the returned label is the one some
/// well-formed full dendrogram of the corpus yields (the dendrogram
/// comes from `linkage`, so its first merge joins a closest pair).
pub fn predict_tweet_class(
    tweets: &Vec<crate::LabeledSample>,
    input_tweet: &str,
    k: usize,
    method: LinkageMethod,
) -> (r: Option<i32>)
    requires
        crate::knn::texts_bounded(tweets@),
        input_tweet@.len() <= crate::tokenset::MAX_TOKENS,
        tweets@.len() <= 0x7fff_ffff,
    ensures
        r is Some <==> (1 <= tweets@.len() && k <= tweets@.len()),
        r is Some ==> exists|steps: Seq<MergeStep>|
            {
                &&& valid_steps(steps, tweets@.len() as int)
                &&& steps_sized(steps, tweets@.len() as int)
                &&& steps.len() == tweets@.len() - 1
                &&& steps.len() >= 1 ==> first_merge_closest(steps, tweets@)
                &&& steps_match(steps, spec_dendrogram(tweets@, method))
                &&& r == Some(
                    #[trigger] spec_predicted_label(steps, tweets@, k as int, input_tweet@),
                )
            },
{
    let n = tweets.len();
    if n == 0 || k > n {
        return None;
    }
    let mut points: Vec<crate::tokenset::TokenSet> = Vec::new();
    let mut i: usize = 0;
    while i < n
        invariant
            i <= n,
            n == tweets@.len(),
            crate::knn::texts_bounded(tweets@),
            points@.len() == i,
            forall|w: int|
                0 <= w < i ==> (#[trigger] points@[w]).wf() && points@[w].tokens()
                    == crate::token::spec_words_alnum(tweets@[w].text@).to_set(),
        decreases n - i,
    {
        let ts = tokeniser_tweet(tweets[i].text.as_str());
        points.push(ts);
        i += 1;
    }
    let matv = distance_matrix(&points);
    let ghost mv = matv@;
    let steps = linkage(matv, n, method);
    proof {
        assert(vals_of(mv, n as int) =~~= spec_dist_vals(tweets@)) by {
            assert forall|a: int, b: int|
                0 <= a < n && 0 <= b < n implies (#[trigger] vals_of(mv, n as int)[a][b])
                == spec_dist_vals(tweets@)[a][b] by {
                assert(vals_of(mv, n as int)[a][b] == (mv[a]@[b].num.value(),
                mv[a]@[b].den.value()));
                assert(spec_point_dist(points@, a, b) == spec_pair_dist(tweets@, a, b));
            }
        }
        assert(steps_match(steps@, spec_dendrogram(tweets@, method)));
        if steps@.len() >= 1 {
            assert forall|p: int, q: int|
                0 <= p < q < tweets@.len() implies !(#[trigger] spec_pair_dist(
                tweets@,
                p,
                q,
            )).spec_lt(
                spec_pair_dist(
                    tweets@,
                    steps@[0].cluster1 as int,
                    steps@[0].cluster2 as int,
                ),
            ) by {
                assert(!mat_lt(
                    mv,
                    p,
                    q,
                    steps@[0].cluster1 as int,
                    steps@[0].cluster2 as int,
                ));
            }
            assert(first_merge_closest(steps@, tweets@));
        }
    }
    let msteps = if n > k {
        if n - k > steps.len() {
            steps.len()
        } else {
            n - k
        }
    } else {
        0
    };
    let uf = cut_dendrogram(&steps, n, msteps);
    let q = tokeniser_tweet(input_tweet);
    let ds = compute_cdists(&q, &points);
    proof {
        assert(ds@ =~= spec_query_dists(input_tweet@, tweets@));
    }
    let nn = nearest_neighbor(&ds);
    let root = uf.find(nn);
    let label = cluster_label(&uf, tweets, root);
    proof {
        lemma_member_labels_partition(
            uf.parent@,
            steps@,
            n as int,
            msteps as int,
            tweets@,
            nn as int,
            n as int,
        );
        assert(msteps as int == spec_cut_steps(
            tweets@.len() as int,
            k as int,
            steps@.len() as int,
        ));
        assert(label == spec_predicted_label(steps@, tweets@, k as int, input_tweet@));
    }
    Some(label)
}

} // verus!
