use vstd::prelude::*;

verus! {

/// Disjoint sets of the numbers below a bound, each number labeled with the
/// set it belongs to: two numbers share a set exactly when they share a
/// label.
pub struct DisjointSet {
    labels: Vec<usize>,
}

impl DisjointSet {
    /// The label of each number, in order.
    pub closed spec fn view(&self) -> Seq<usize> {
        self.labels@
    }

    /// The numbers `a` and `b` lie in one set.
    pub open spec fn same(&self, a: int, b: int) -> bool {
        self@[a] == self@[b]
    }

    /// `n` numbers, each alone in its own set.
    pub fn new(n: usize) -> (s: DisjointSet)
        ensures
            s@.len() == n,
            forall|i: int, j: int| 0 <= i < n && 0 <= j < n ==> (s.same(i, j) <==> i == j),
    {
        let mut labels: Vec<usize> = Vec::new();
        let mut i: usize = 0;
        while i < n
            invariant
                i <= n,
                labels@.len() == i,
                forall|k: int| 0 <= k < i ==> labels@[k] == k,
            decreases n - i,
        {
            labels.push(i);
            i = i + 1;
        }
        DisjointSet { labels }
    }

    pub fn len(&self) -> (n: usize)
        ensures
            n == self@.len(),
    {
        self.labels.len()
    }

    /// Joins the sets of `a` and `b` when they differ, and says whether it
    /// did: every number of the set of `b` moves to the set of `a`.
    pub fn made_union(&mut self, a: usize, b: usize) -> (joined: bool)
        requires
            a < old(self)@.len(),
            b < old(self)@.len(),
        ensures
            joined == !old(self).same(a as int, b as int),
            final(self)@.len() == old(self)@.len(),
            forall|i: int|
                0 <= i < old(self)@.len() ==> #[trigger] final(self)@[i] == if joined && old(self)@[i]
                    == old(self)@[b as int] {
                    old(self)@[a as int]
                } else {
                    old(self)@[i]
                },
    {
        let la = self.labels[a];
        let lb = self.labels[b];
        if la == lb {
            return false;
        }
        let n = self.labels.len();
        let mut i: usize = 0;
        while i < n
            invariant
                n == self.labels@.len(),
                n == old(self)@.len(),
                la == old(self)@[a as int],
                lb == old(self)@[b as int],
                la != lb,
                i <= n,
                forall|k: int| 0 <= k < i ==> #[trigger] self.labels@[k] == if old(self)@[k] == lb {
                    la
                } else {
                    old(self)@[k]
                },
                forall|k: int| i <= k < n ==> #[trigger] self.labels@[k] == old(self)@[k],
            decreases n - i,
        {
            if self.labels[i] == lb {
                self.labels.set(i, la);
            }
            i = i + 1;
        }
        true
    }
}

} // verus!
