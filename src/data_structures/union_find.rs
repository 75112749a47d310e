use vstd::prelude::*;
use vstd::set_lib::{lemma_int_range, lemma_len_subset, lemma_set_disjoint_lens, set_int_range};

verus! {

/// After joining the sets of `x` and `y`, `a` and `b` lie in one set exactly when
/// they did before, or one lay with `x` and the other with `y`.
pub open spec fn merged(uf: &UnionFind, a: int, b: int, x: int, y: int) -> bool {
    uf.same(a, b) || (uf.same(a, x) && uf.same(b, y)) || (uf.same(a, y) && uf.same(b, x))
}

/// Disjoint sets over the elements `0..n`, as a forest of parent links joined by
/// size.
pub struct UnionFind {
    parent: Vec<usize>,
    size: Vec<usize>,
    count: usize,
    root: Ghost<Seq<usize>>,
    dist: Ghost<Seq<nat>>,
}

impl UnionFind {
    /// Number of elements.
    pub closed spec fn len(&self) -> nat {
        self.parent@.len()
    }

    /// The representative of the set that holds `x`.
    pub closed spec fn rep(&self, x: int) -> int {
        self.root@[x] as int
    }

    /// `x` and `y` lie in one set.
    pub open spec fn same(&self, x: int, y: int) -> bool {
        self.rep(x) == self.rep(y)
    }

    /// The elements whose representative is `r`.
    pub closed spec fn members(&self, r: int) -> Set<int> {
        Set::new(|z: int| 0 <= z < self.len() && self.root@[z] == r)
    }

    /// The elements that are their own parent: one for each set.
    pub closed spec fn roots(&self) -> Set<int> {
        Set::new(|z: int| 0 <= z < self.len() && self.parent@[z] == z)
    }

    /// Number of disjoint sets.
    pub closed spec fn num_sets(&self) -> nat {
        self.roots().len()
    }

    /// The forest is well formed: parent links lead, in `dist` steps, to the
    /// representative; each root records the size of its set; `count` is the number
    /// of sets.
    pub closed spec fn wf(&self) -> bool {
        let n = self.parent@.len();
        &&& self.size@.len() == n
        &&& self.root@.len() == n
        &&& self.dist@.len() == n
        &&& forall|z: int|
            #![trigger self.parent@[z]]
            0 <= z < n ==> {
                &&& self.parent@[z] < n
                &&& self.root@[z] < n
                &&& self.parent@[self.root@[z] as int] == self.root@[z]
                &&& self.parent@[z] == z ==> self.dist@[z] == 0 && self.root@[z] == z
                &&& self.parent@[z] != z ==> self.dist@[z] == self.dist@[self.parent@[z] as int]
                    + 1 && self.root@[z] == self.root@[self.parent@[z] as int]
            }
        &&& forall|r: int|
            0 <= r < n && #[trigger] self.parent@[r] == r ==> self.size@[r] == self.members(
                r,
            ).len()
        &&& self.count == self.roots().len()
    }

    /// Creates `count` sets, each holding one element.
    pub fn new(count: usize) -> (r: Self)
        ensures
            r.wf(),
            r.len() == count,
            forall|x: int| 0 <= x < count ==> #[trigger] r.rep(x) == x,
            r.num_sets() == count,
    {
        let mut parent: Vec<usize> = Vec::new();
        let mut size: Vec<usize> = Vec::new();
        let mut i: usize = 0;
        while i < count
            invariant
                i <= count,
                parent@.len() == i,
                size@.len() == i,
                forall|z: int| 0 <= z < i ==> parent@[z] == z && size@[z] == 1,
            decreases count - i,
        {
            parent.push(i);
            size.push(1);
            i = i + 1;
        }
        let r = UnionFind {
            parent,
            size,
            count,
            root: Ghost(Seq::new(count as nat, |z: int| z as usize)),
            dist: Ghost(Seq::new(count as nat, |z: int| 0nat)),
        };
        proof {
            assert forall|x: int| 0 <= x < count && #[trigger] r.parent@[x] == x implies r.size@[x]
                == r.members(x).len() by {
                assert(r.members(x) =~= set![x]);
            }
            assert(r.roots() =~= set_int_range(0, count as int));
            lemma_int_range(0, count as int);
        }
        r
    }

    /// Returns the representative of the set that holds `x`.
    pub fn find(&self, x: usize) -> (r: usize)
        requires
            self.wf(),
            x < self.len(),
        ensures
            r == self.rep(x as int),
            r < self.len(),
    {
        let mut x = x;
        let ghost target = self.root@[x as int];
        while x != self.parent[x]
            invariant
                self.wf(),
                x < self.len(),
                self.root@[x as int] == target,
            decreases self.dist@[x as int],
        {
            assert(self.parent@[x as int] < self.len());
            x = self.parent[x];
        }
        x
    }

    /// Joins the sets that hold `x` and `y`; returns `false` when they were one set
    /// already.
    pub fn union(&mut self, x: usize, y: usize) -> (r: bool)
        requires
            old(self).wf(),
            x < old(self).len(),
            y < old(self).len(),
        ensures
            final(self).wf(),
            final(self).len() == old(self).len(),
            r == !old(self).same(x as int, y as int),
            forall|a: int, b: int|
                0 <= a < old(self).len() && 0 <= b < old(self).len() ==> (#[trigger] final(self).same(a, b)
                    <==> merged(old(self), a, b, x as int, y as int)),
            final(self).num_sets() == if r {
                old(self).num_sets() - 1
            } else {
                old(self).num_sets() as int
            },
    {
        let ghost x0 = x as int;
        let ghost y0 = y as int;
        let x = self.find(x);
        let y = self.find(y);
        proof {
            assert(self.parent@[x0] < self.len());
            assert(self.parent@[y0] < self.len());
        }
        if x == y {
            return false;
        }
        if self.size[x] < self.size[y] {
            self.attach(x, y);
        } else {
            self.attach(y, x);
        }
        true
    }

    /// Makes root `b` the parent of root `a`.
    fn attach(&mut self, a: usize, b: usize)
        requires
            old(self).wf(),
            a < old(self).len(),
            b < old(self).len(),
            a != b,
            old(self).parent@[a as int] == a,
            old(self).parent@[b as int] == b,
        ensures
            final(self).wf(),
            final(self).len() == old(self).len(),
            forall|z: int|
                0 <= z < old(self).len() ==> #[trigger] final(self).rep(z) == if old(self).rep(z)
                    == a {
                    b as int
                } else {
                    old(self).rep(z)
                },
            final(self).num_sets() == old(self).num_sets() - 1,
    {
        let ghost n = self.parent@.len() as int;
        let ghost old_root = self.root@;
        let ghost ma = self.members(a as int);
        let ghost mb = self.members(b as int);
        let ghost roots0 = self.roots();
        proof {
            assert(self.root@[a as int] == a);
            assert(self.root@[b as int] == b);
            assert(ma.subset_of(set_int_range(0, n)));
            assert(mb.subset_of(set_int_range(0, n)));
            lemma_int_range(0, n);
            lemma_len_subset(ma, set_int_range(0, n));
            lemma_len_subset(mb, set_int_range(0, n));
            assert(ma.disjoint(mb));
            lemma_set_disjoint_lens(ma, mb);
            lemma_len_subset(ma + mb, set_int_range(0, n));
            assert(roots0.subset_of(set_int_range(0, n)));
            lemma_len_subset(roots0, set_int_range(0, n));
        }
        let _n = self.parent.len();
        proof {
            assert(roots0.contains(a as int));
            assert(roots0.remove(a as int).len() == roots0.len() - 1);
        }
        let sa = self.size[a];
        let sb = self.size[b];
        self.parent.set(a, b);
        self.size.set(b, sa + sb);
        self.count = self.count - 1;
        proof {
            self.root@ = Seq::new(
                n as nat,
                |z: int|
                    if old_root[z] == a {
                        b
                    } else {
                        old_root[z]
                    },
            );
            self.dist@ = Seq::new(
                n as nat,
                |z: int|
                    if old_root[z] == a {
                        old(self).dist@[z] + 1
                    } else {
                        old(self).dist@[z]
                    },
            );
            assert forall|z: int| 0 <= z < n implies {
                &&& #[trigger] self.parent@[z] < n
                &&& self.root@[z] < n
                &&& self.parent@[self.root@[z] as int] == self.root@[z]
                &&& self.parent@[z] == z ==> self.dist@[z] == 0 && self.root@[z] == z
                &&& self.parent@[z] != z ==> self.dist@[z] == self.dist@[self.parent@[z] as int] + 1
                    && self.root@[z] == self.root@[self.parent@[z] as int]
            } by {
                assert(old(self).parent@[z] < n);
                assert(old(self).parent@[old_root[z] as int] == old_root[z]);
                if z != a {
                    let pz = old(self).parent@[z] as int;
                    assert(old(self).parent@[pz] < n);
                }
            }
            assert(self.members(b as int) =~= ma + mb);
            assert forall|r: int| 0 <= r < n && #[trigger] self.parent@[r] == r implies self.size@[r]
                == self.members(r).len() by {
                assert(old(self).parent@[r] == r);
                if r != b {
                    assert(self.members(r) =~= old(self).members(r));
                }
            }
            assert(self.roots() =~= roots0.remove(a as int));
        }
    }

    /// Tells whether `x` and `y` lie in one set.
    pub fn is_same_set(&self, x: usize, y: usize) -> (r: bool)
        requires
            self.wf(),
            x < self.len(),
            y < self.len(),
        ensures
            r == self.same(x as int, y as int),
    {
        self.find(x) == self.find(y)
    }

    /// Returns the number of disjoint sets.
    pub fn count(&self) -> (r: usize)
        requires
            self.wf(),
        ensures
            r == self.num_sets(),
    {
        self.count
    }
}

} // verus!
