//! Union-find over `0..n` with path compression.

use vstd::prelude::*;
use crate::partition::{is_partition, merge, representatives, singletons};

verus! {

/// A forest of parent links over `0..parent.len()`. `rank` witnesses that
/// the links lead upwards and so never run in a circle.
pub struct Forest {
    pub parent: Seq<int>,
    pub rank: Seq<nat>,
    pub bound: nat,
}

impl Forest {
    /// Every link leads to an element of higher rank.
    pub open spec fn wf(self) -> bool {
        &&& self.rank.len() == self.parent.len()
        &&& forall|i: int|
            0 <= i < self.parent.len() ==> 0 <= #[trigger] self.parent[i] < self.parent.len()
        &&& forall|i: int| 0 <= i < self.parent.len() ==> #[trigger] self.rank[i] <= self.bound
        &&& forall|i: int|
            0 <= i < self.parent.len() && #[trigger] self.parent[i] != i ==> self.rank[i]
                < self.rank[self.parent[i]]
    }

    /// The element reached from `i` by following parent links to the end.
    pub open spec fn root(self, i: int) -> int
        decreases self.bound - self.rank[i],
        when self.wf() && 0 <= i < self.parent.len()
    {
        if self.parent[i] == i {
            i
        } else {
            self.root(self.parent[i])
        }
    }

    /// The partition into trees: every element is represented by its root.
    pub open spec fn classes(self) -> Seq<int> {
        Seq::new(self.parent.len(), |i: int| self.root(i))
    }

    /// The root of an element is an element that is its own parent, and
    /// the root of every element on the way to it.
    pub proof fn lemma_root(self, i: int)
        requires
            self.wf(),
            0 <= i < self.parent.len(),
        ensures
            0 <= self.root(i) < self.parent.len(),
            self.parent[self.root(i)] == self.root(i),
            self.root(self.root(i)) == self.root(i),
            self.rank[i] <= self.rank[self.root(i)],
            self.root(i) == i <==> self.parent[i] == i,
            self.root(self.parent[i]) == self.root(i),
        decreases self.bound - self.rank[i],
    {
        if self.parent[i] != i {
            self.lemma_root(self.parent[i]);
        }
    }

    /// The trees of a forest are a partition of its elements.
    pub proof fn lemma_classes(self)
        requires
            self.wf(),
        ensures
            is_partition(self.classes()),
            self.classes().len() == self.parent.len(),
    {
        let m = self.classes();
        assert forall|i: int| 0 <= i < m.len() implies 0 <= #[trigger] m[i] < m.len() && m[m[i]]
            == m[i] by {
            self.lemma_root(i);
        }
    }

    /// The forest in which `i` hangs directly below `r`.
    pub open spec fn relink(self, i: int, r: int) -> Forest {
        Forest { parent: self.parent.update(i, r), rank: self.rank, bound: self.bound }
    }

    /// Hanging an element directly below its own root changes no root.
    pub proof fn lemma_compress(self, i: int)
        requires
            self.wf(),
            0 <= i < self.parent.len(),
        ensures
            self.relink(i, self.root(i)).wf(),
            self.relink(i, self.root(i)).classes() == self.classes(),
    {
        let r = self.root(i);
        let f = self.relink(i, r);
        self.lemma_root(i);
        if self.parent[i] != i {
            self.lemma_root(self.parent[i]);
        }
        assert(f.wf());
        assert forall|j: int| 0 <= j < self.parent.len() implies f.root(j) == self.root(j) by {
            self.lemma_compress_root(i, j);
        }
        assert(f.classes() =~= self.classes());
    }

    proof fn lemma_compress_root(self, i: int, j: int)
        requires
            self.wf(),
            0 <= i < self.parent.len(),
            0 <= j < self.parent.len(),
            self.relink(i, self.root(i)).wf(),
        ensures
            self.relink(i, self.root(i)).root(j) == self.root(j),
        decreases self.bound - self.rank[j],
    {
        let f = self.relink(i, self.root(i));
        self.lemma_root(i);
        self.lemma_root(j);
        if j == i {
            if self.parent[i] != i {
                let r = self.root(i);
                assert(f.parent[r] == r);
                assert(f.root(r) == r);
            }
        } else if self.parent[j] != j {
            self.lemma_compress_root(i, self.parent[j]);
        }
    }

    /// The forest in which the root `p` hangs below the root `q`.
    pub open spec fn link(self, p: int, q: int) -> Forest {
        let lifted = if self.rank[q] > self.rank[p] {
            self.rank[q]
        } else {
            self.rank[p] + 1
        };
        Forest {
            parent: self.parent.update(p, q),
            rank: self.rank.update(q, lifted),
            bound: if self.bound > lifted {
                self.bound
            } else {
                lifted
            },
        }
    }

    /// Hanging one root below another joins their two classes and leaves
    /// every other class alone.
    pub proof fn lemma_link(self, p: int, q: int)
        requires
            self.wf(),
            0 <= p < self.parent.len(),
            0 <= q < self.parent.len(),
            self.parent[p] == p,
            self.parent[q] == q,
        ensures
            p != q ==> self.link(p, q).wf(),
            p != q ==> self.link(p, q).classes() == merge(self.classes(), p, q),
            p == q ==> self.classes() == merge(self.classes(), p, q),
    {
        self.lemma_root(p);
        self.lemma_root(q);
        let m = self.classes();
        if p == q {
            assert(merge(m, p, q) =~= m);
        } else {
            let f = self.link(p, q);
            assert(f.wf()) by {
                assert forall|i: int| 0 <= i < f.parent.len() && #[trigger] f.parent[i]
                    != i implies f.rank[i] < f.rank[f.parent[i]] by {
                    assert(0 <= self.parent[i] < self.parent.len());
                    assert(self.rank[self.parent[i]] <= f.rank[self.parent[i]]);
                }
                assert forall|i: int| 0 <= i < f.parent.len() implies #[trigger] f.rank[i]
                    <= f.bound by {
                    assert(self.rank[i] <= self.bound);
                }
            }
            assert forall|j: int| 0 <= j < self.parent.len() implies f.root(j) == merge(m, p, q)[j] by {
                self.lemma_link_root(p, q, j);
            }
            assert(f.classes() =~= merge(m, p, q));
        }
    }

    proof fn lemma_link_root(self, p: int, q: int, j: int)
        requires
            self.wf(),
            0 <= p < self.parent.len(),
            0 <= q < self.parent.len(),
            0 <= j < self.parent.len(),
            self.parent[p] == p,
            self.parent[q] == q,
            p != q,
            self.link(p, q).wf(),
        ensures
            self.link(p, q).root(j) == if self.root(j) == p {
                q
            } else {
                self.root(j)
            },
        decreases self.bound - self.rank[j],
    {
        let f = self.link(p, q);
        self.lemma_root(p);
        self.lemma_root(q);
        self.lemma_root(j);
        if j == p {
            assert(f.parent[q] == q);
            assert(f.root(q) == q);
        } else if self.parent[j] != j {
            self.lemma_link_root(p, q, self.parent[j]);
        }
    }
}

/// A partition of `0..n` that can only grow coarser.
pub struct DisjointSet {
    parent: Vec<i32>,
    rank: Ghost<Seq<nat>>,
    bound: Ghost<nat>,
}

impl View for DisjointSet {
    type V = Seq<int>;

    /// The representative of every element.
    closed spec fn view(&self) -> Seq<int> {
        self.forest().classes()
    }
}

impl DisjointSet {
    spec fn forest(&self) -> Forest {
        Forest {
            parent: self.parent@.map_values(|p: i32| p as int),
            rank: self.rank@,
            bound: self.bound@,
        }
    }

    /// The links form a forest over no more elements than fit `i32`.
    pub closed spec fn wf(&self) -> bool {
        &&& self.forest().wf()
        &&& self.parent@.len() <= i32::MAX
    }

    /// A well-formed set is a partition of `0..n` for an `n` that fits `i32`.
    pub proof fn lemma_view(&self)
        requires
            self.wf(),
        ensures
            is_partition(self@),
            self@.len() <= i32::MAX,
    {
        self.forest().lemma_classes();
    }

    /// The partition of `0..length` into singletons; empty when `length` is
    /// negative.
    pub fn new(length: i32) -> (r: DisjointSet)
        ensures
            r.wf(),
            r@ == singletons(
                if length > 0 {
                    length as nat
                } else {
                    0
                },
            ),
    {
        let mut parent: Vec<i32> = Vec::new();
        let mut i: i32 = 0;
        while i < length
            invariant
                0 <= i,
                length >= 0 ==> i <= length,
                length < 0 ==> i == 0,
                parent@.len() == i,
                forall|k: int| 0 <= k < i ==> parent@[k] == k,
            decreases length - i,
        {
            parent.push(i);
            i += 1;
        }
        let ghost n = parent@.len();
        let r = DisjointSet { parent, rank: Ghost(Seq::new(n, |k: int| 0nat)), bound: Ghost(0nat) };
        proof {
            let f = r.forest();
            assert(f.wf());
            assert forall|k: int| 0 <= k < n implies f.root(k) == k by {
                f.lemma_root(k);
            }
            assert(r@ =~= singletons(n));
        }
        r
    }

    /// The representative of `index`. Links along the way are shortened;
    /// the partition is unchanged.
    pub fn find_parent(&mut self, index: i32) -> (r: i32)
        requires
            old(self).wf(),
            0 <= index < old(self)@.len(),
        ensures
            final(self).wf(),
            final(self)@ == old(self)@,
            r == old(self)@[index as int],
    {
        let ghost before = self.forest();
        let mut root = index;
        proof {
            before.lemma_root(index as int);
        }
        while self.parent[root as usize] != root
            invariant
                self.forest() == before,
                before.wf(),
                0 <= root < before.parent.len(),
                before.root(root as int) == before.root(index as int),
            decreases before.bound - before.rank[root as int],
        {
            proof {
                before.lemma_root(root as int);
            }
            root = self.parent[root as usize];
        }
        proof {
            before.lemma_root(root as int);
        }
        let mut cur = index;
        while cur != root
            invariant
                self.wf(),
                self.parent@.len() == before.parent.len(),
                self.forest().rank == before.rank,
                self.forest().bound == before.bound,
                self.forest().classes() == before.classes(),
                0 <= cur < before.parent.len(),
                0 <= root < before.parent.len(),
                self.forest().root(cur as int) == root,
                root == before.root(index as int),
            decreases before.bound - before.rank[cur as int],
        {
            let ghost f = self.forest();
            let next = self.parent[cur as usize];
            proof {
                f.lemma_root(cur as int);
                f.lemma_compress(cur as int);
                f.lemma_root(next as int);
                assert(f.classes()[next as int] == f.root(next as int));
            }
            self.parent[cur as usize] = root;
            proof {
                let g = self.forest();
                assert(g.parent =~= f.parent.update(cur as int, root as int));
                assert(g == f.relink(cur as int, f.root(cur as int)));
                assert(g.classes()[next as int] == g.root(next as int));
            }
            cur = next;
        }
        proof {
            assert(before.classes()[index as int] == before.root(index as int));
        }
        root
    }

    /// Joins the class of `index1` to the class of `index2`: the
    /// representative of `index2` now stands for both.
    pub fn union(&mut self, index1: i32, index2: i32)
        requires
            old(self).wf(),
            0 <= index1 < old(self)@.len(),
            0 <= index2 < old(self)@.len(),
        ensures
            final(self).wf(),
            final(self)@ == merge(old(self)@, index1 as int, index2 as int),
    {
        let p1 = self.find_parent(index1);
        let p2 = self.find_parent(index2);
        let ghost f = self.forest();
        proof {
            f.lemma_classes();
            f.lemma_root(p1 as int);
            f.lemma_root(p2 as int);
            f.lemma_link(p1 as int, p2 as int);
            assert(merge(f.classes(), p1 as int, p2 as int) =~= merge(
                f.classes(),
                index1 as int,
                index2 as int,
            ));
        }
        if p1 != p2 {
            self.parent[p1 as usize] = p2;
            proof {
                let g = f.link(p1 as int, p2 as int);
                self.rank@ = g.rank;
                self.bound@ = g.bound;
                assert(self.forest().parent =~= g.parent);
            }
        }
    }

    /// The number of classes.
    pub fn num_unique_sets(&self) -> (r: i32)
        requires
            self.wf(),
        ensures
            r == representatives(self@).len(),
    {
        let mut count: i32 = 0;
        let mut i: usize = 0;
        let ghost f = self.forest();
        proof {
            assert(representatives(self@.take(0)) =~= Set::<int>::empty());
        }
        while i < self.parent.len()
            invariant
                self.wf(),
                f == self.forest(),
                i <= self.parent.len(),
                0 <= count <= i,
                representatives(self@.take(i as int)).finite(),
                count == representatives(self@.take(i as int)).len(),
            decreases self.parent.len() - i,
        {
            proof {
                f.lemma_root(i as int);
                let before = representatives(self@.take(i as int));
                let after = representatives(self@.take(i + 1));
                if self@[i as int] == i {
                    assert(after =~= before.insert(i as int));
                } else {
                    assert(after =~= before);
                }
            }
            if self.parent[i] as usize == i {
                count += 1;
            }
            i += 1;
        }
        proof {
            assert(self@.take(i as int) =~= self@);
        }
        count
    }
}

} // verus!
