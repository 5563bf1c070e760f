//! Disjoint sets with path halving, weighted by an area per element.

use vstd::prelude::*;

verus! {

/// A partition of `0..n`; every class has a root element, and the root carries the class's area.
pub struct UnionFind {
    parent: Vec<u32>,
    size: Vec<u32>,
    root: Ghost<Seq<u32>>,
    depth: Ghost<Seq<nat>>,
}

/// The classes of `root`, with the class of `from` handed over to the root `to`.
pub open spec fn joined(root: Seq<u32>, from: u32, to: u32) -> Seq<u32> {
    Seq::new(
        root.len(),
        |i: int|
            if root[i] == from {
                to
            } else {
                root[i]
            },
    )
}

/// Each element on its own.
pub open spec fn discrete(n: nat) -> Seq<u32> {
    Seq::new(n, |i: int| i as u32)
}

/// `root` maps every element to an element that is its own root.
pub open spec fn is_root_map(root: Seq<u32>) -> bool {
    forall|i: int|
        0 <= i < root.len() ==> (#[trigger] root[i]) < root.len() && root[root[i] as int] == root[i]
}

impl UnionFind {
    /// The root of each element.
    pub closed spec fn roots(&self) -> Seq<u32> {
        self.root@
    }

    /// The area that each element carries; meaningful at roots.
    pub closed spec fn sizes(&self) -> Seq<u32> {
        self.size@
    }

    pub closed spec fn wf(&self) -> bool {
        let n = self.parent@.len();
        &&& n <= u32::MAX
        &&& self.size@.len() == n
        &&& self.root@.len() == n
        &&& self.depth@.len() == n
        &&& is_root_map(self.root@)
        &&& forall|a: int|
            0 <= a < n ==> {
                &&& #[trigger] self.parent@[a] < n
                &&& self.root@[self.parent@[a] as int] == self.root@[a]
                &&& (self.parent@[a] == a <==> self.root@[a] == a)
                &&& (self.parent@[a] != a ==> self.depth@[self.parent@[a] as int] < self.depth@[a])
            }
    }

    /// What callers may rely on without looking inside.
    pub proof fn lemma_wf(&self)
        requires
            self.wf(),
        ensures
            self.roots().len() == self.sizes().len(),
            self.roots().len() <= u32::MAX,
            is_root_map(self.roots()),
    {
    }

    pub fn new(areas: &[u32]) -> (uf: Self)
        requires
            areas@.len() <= u32::MAX,
        ensures
            uf.wf(),
            uf.roots() == discrete(areas@.len()),
            uf.sizes() == areas@,
    {
        let n: usize = areas.len();
        let mut parent: Vec<u32> = Vec::new();
        let mut size: Vec<u32> = Vec::new();
        let mut i: usize = 0;
        while i < n
            invariant
                n == areas@.len(),
                n <= u32::MAX,
                i <= n,
                parent@.len() == i,
                size@.len() == i,
                forall|a: int| 0 <= a < i ==> #[trigger] parent@[a] == a,
                forall|a: int| 0 <= a < i ==> #[trigger] size@[a] == areas@[a],
            decreases n - i,
        {
            parent.push(i as u32);
            size.push(areas[i]);
            i = i + 1;
        }
        assert(size@ =~= areas@);
        UnionFind {
            parent,
            size,
            root: Ghost(discrete(areas@.len())),
            depth: Ghost(Seq::new(areas@.len(), |i: int| 0nat)),
        }
    }

    /// The root of `a`; shortens the way to it.
    pub fn find(&mut self, a: u32) -> (r: u32)
        requires
            old(self).wf(),
            a < old(self).roots().len(),
        ensures
            final(self).wf(),
            final(self).roots() == old(self).roots(),
            final(self).sizes() == old(self).sizes(),
            r == old(self).roots()[a as int],
            r < old(self).roots().len(),
            old(self).roots()[r as int] == r,
    {
        let mut at: u32 = a;
        while self.parent[at as usize] != at
            invariant
                self.wf(),
                self.root@ == old(self).root@,
                self.size@ == old(self).size@,
                at < self.root@.len(),
                self.root@[at as int] == old(self).root@[a as int],
            decreases self.depth@[at as int],
        {
            let up: u32 = self.parent[at as usize];
            let upper: u32 = self.parent[up as usize];
            self.parent.set(at as usize, upper);
            at = upper;
        }
        at
    }

    /// Union, keeping `keep`'s root as the surviving root (so the merged region
    /// adopts its color). Returns the surviving root.
    pub fn union_into(&mut self, child: u32, keep: u32) -> (r: u32)
        requires
            old(self).wf(),
            child < old(self).roots().len(),
            keep < old(self).roots().len(),
            ({
                let rc = old(self).roots()[child as int];
                let rk = old(self).roots()[keep as int];
                rc != rk ==> old(self).sizes()[rc as int] + old(self).sizes()[rk as int] <= u32::MAX
            }),
        ensures
            final(self).wf(),
            r == old(self).roots()[keep as int],
            final(self).roots() == joined(
                old(self).roots(),
                old(self).roots()[child as int],
                r,
            ),
            ({
                let rc = old(self).roots()[child as int];
                final(self).sizes() == if rc == r {
                    old(self).sizes()
                } else {
                    old(self).sizes().update(
                        r as int,
                        (old(self).sizes()[r as int] + old(self).sizes()[rc as int]) as u32,
                    )
                }
            }),
    {
        let rc: u32 = self.find(child);
        let rk: u32 = self.find(keep);
        if rc == rk {
            assert(joined(self.root@, rc, rk) =~= self.root@);
            return rk;
        }
        let total: u32 = self.size[rk as usize] + self.size[rc as usize];
        self.parent.set(rc as usize, rk);
        self.size.set(rk as usize, total);
        proof {
            let lift = self.depth@[rk as int] + 1;
            let root0 = self.root@;
            let depth0 = self.depth@;
            self.depth@ = Seq::new(
                depth0.len(),
                |i: int|
                    if root0[i] == rc {
                        depth0[i] + lift
                    } else {
                        depth0[i]
                    },
            );
            self.root@ = joined(root0, rc, rk);
        }
        rk
    }

    /// The area that `a` carries.
    pub fn size_of(&self, a: u32) -> (s: u32)
        requires
            self.wf(),
            a < self.roots().len(),
        ensures
            s == self.sizes()[a as int],
    {
        self.size[a as usize]
    }
}

} // verus!
