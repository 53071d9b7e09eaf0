//! A disjoint-set forest with path halving. Its ghost state names the root of
//! every element, so callers reason about the partition without following
//! parent links.
use vstd::prelude::*;

verus! {

/// Merge the class whose root is `ra` into the class whose root is `rb`.
pub open spec fn merge_roots(root: Seq<int>, ra: int, rb: int) -> Seq<int> {
    root.map_values(|v: int| if v == ra { rb } else { v })
}

/// Disjoint-set forest over `0..parent.len()`.
pub(crate) struct UnionFind {
    parent: Vec<usize>,
    /// Root of every element's class.
    root: Ghost<Seq<int>>,
    /// Strictly increases from a node to its parent; bounds the walk to a root.
    rank: Ghost<Seq<int>>,
    /// Upper bound of every rank.
    bound: Ghost<int>,
}

impl UnionFind {
    /// Root of the class of every element.
    pub(crate) closed spec fn roots(&self) -> Seq<int> {
        self.root@
    }

    /// Number of elements.
    pub(crate) closed spec fn size(&self) -> nat {
        self.parent.len() as nat
    }

    /// Parent links lead, with strictly growing rank, to the recorded root of
    /// every element.
    pub(crate) closed spec fn inv(&self) -> bool {
        let n = self.parent.len();
        &&& self.root@.len() == n
        &&& self.rank@.len() == n
        &&& forall|i: int| 0 <= i < n ==> (#[trigger] self.parent@[i]) < n
        &&& forall|i: int| 0 <= i < n ==> 0 <= #[trigger] self.root@[i] < n
        &&& forall|i: int| 0 <= i < n ==> self.root@[#[trigger] self.root@[i]] == self.root@[i]
        &&& forall|i: int| 0 <= i < n ==> ((#[trigger] self.parent@[i]) == i <==> self.root@[i] == i)
        &&& forall|i: int|
            0 <= i < n ==> self.root@[#[trigger] self.parent@[i] as int] == self.root@[i]
        &&& forall|i: int|
            0 <= i < n && #[trigger] self.parent@[i] != i ==> self.rank@[i]
                < self.rank@[self.parent@[i] as int]
        &&& forall|i: int| 0 <= i < n ==> 0 <= #[trigger] self.rank@[i] <= self.bound@
    }

    /// Every recorded root is an element and is its own root.
    pub(crate) proof fn lemma_roots(&self)
        requires
            self.inv(),
        ensures
            self.size() <= usize::MAX,
            self.roots().len() == self.size(),
            forall|i: int| 0 <= i < self.size() ==> 0 <= #[trigger] self.roots()[i] < self.size(),
            forall|i: int|
                0 <= i < self.size() ==> self.roots()[#[trigger] self.roots()[i]] == self.roots()[i],
    {
    }

    /// `n` singleton classes.
    pub(crate) fn new(n: usize) -> (uf: Self)
        ensures
            uf.inv(),
            uf.size() == n,
            uf.roots() == Seq::new(n as nat, |i: int| i),
    {
        let mut parent: Vec<usize> = Vec::new();
        let mut i: usize = 0;
        while i < n
            invariant
                0 <= i <= n,
                parent.len() == i,
                forall|j: int| 0 <= j < i ==> #[trigger] parent@[j] == j,
            decreases n - i,
        {
            parent.push(i);
            i += 1;
        }
        UnionFind {
            parent,
            root: Ghost(Seq::new(n as nat, |i: int| i)),
            rank: Ghost(Seq::new(n as nat, |i: int| 0)),
            bound: Ghost(0),
        }
    }

    /// Root of the class of `x`, halving the path walked on the way.
    pub(crate) fn find(&mut self, x: usize) -> (r: usize)
        requires
            old(self).inv(),
            x < old(self).size(),
        ensures
            final(self).inv(),
            final(self).size() == old(self).size(),
            final(self).roots() == old(self).roots(),
            r == old(self).roots()[x as int],
            old(self).roots()[r as int] == r,
    {
        let ghost n = self.parent.len() as int;
        let ghost x0 = x as int;
        let mut x = x;
        while self.parent[x] != x
            invariant
                self.inv(),
                self.parent.len() == n,
                self.root@ == old(self).root@,
                x < n,
                self.root@[x as int] == old(self).root@[x0],
            decreases self.bound@ - self.rank@[x as int],
        {
            let p = self.parent[x];
            let gp = self.parent[p];
            assert(self.rank@[x as int] < self.rank@[p as int]);
            assert(gp != p ==> self.rank@[p as int] < self.rank@[gp as int]);
            self.parent.set(x, gp);
            assert forall|i: int| 0 <= i < n implies ((#[trigger] self.parent@[i]) == i
                <==> self.root@[i] == i) by {
                if i == x {
                    assert(self.root@[x as int] != x);
                }
            }
            x = gp;
        }
        assert(self.root@[x as int] == x);
        x
    }

    /// Merge the classes of `a` and `b`: the class of `a` joins the class
    /// of `b` when they differ.
    pub(crate) fn union(&mut self, a: usize, b: usize)
        requires
            old(self).inv(),
            a < old(self).size(),
            b < old(self).size(),
        ensures
            final(self).inv(),
            final(self).size() == old(self).size(),
            final(self).roots() == merge_roots(
                old(self).roots(),
                old(self).roots()[a as int],
                old(self).roots()[b as int],
            ),
    {
        let ra = self.find(a);
        let rb = self.find(b);
        if ra != rb {
            let ghost n = self.parent.len() as int;
            let ghost old_root = self.root@;
            let ghost old_rank = self.rank@;
            assert(old_root[ra as int] == ra);
            assert(old_root[rb as int] == rb);
            self.parent.set(ra, rb);
            let ghost new_rank_rb = if old_rank[rb as int] > old_rank[ra as int] {
                old_rank[rb as int]
            } else {
                old_rank[ra as int] + 1
            };
            proof {
                self.root@ = merge_roots(old_root, ra as int, rb as int);
                self.rank@ = old_rank.update(rb as int, new_rank_rb);
                if new_rank_rb > self.bound@ {
                    self.bound@ = new_rank_rb;
                }
            }
            assert forall|i: int| 0 <= i < n implies self.root@[#[trigger] self.root@[i]]
                == self.root@[i] by {
                assert(old_root[old_root[i]] == old_root[i]);
            }
            assert forall|i: int| 0 <= i < n implies ((#[trigger] self.parent@[i]) == i
                <==> self.root@[i] == i) by {
                if old_root[i] == ra && i != ra {
                    assert(old_root[i] != i);
                }
            }
            assert forall|i: int|
                0 <= i < n implies self.root@[#[trigger] self.parent@[i] as int] == self.root@[i] by {
                if i != ra {
                    assert(old_root[self.parent@[i] as int] == old_root[i]);
                }
            }
            assert forall|i: int|
                0 <= i < n && #[trigger] self.parent@[i] != i implies self.rank@[i]
                    < self.rank@[self.parent@[i] as int] by {
                if i == rb {
                } else if i == ra {
                } else {
                    assert(old_rank[i] < old_rank[self.parent@[i] as int]);
                }
            }
        } else {
            assert(self.root@ =~= merge_roots(self.root@, ra as int, rb as int));
        }
    }
}

} // verus!
