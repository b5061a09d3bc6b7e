//! Every leaf lies under the root once: the leaves under two children of
//! a node are not the same.

use crate::bvh::BVHTree;
use vstd::prelude::*;

verus! {

impl<E: Copy> BVHTree<E> {
    /// Whether the node in slot `m` is the node in slot `n` or lies under
    /// it.
    pub open spec fn under(&self, n: int, m: int) -> bool
        decreases self.rank(n),
    {
        n == m || exists|k: int|
            0 <= k < self.node(n).totnode && self.rank(
                #[trigger] self.node(n).children@[k] as int,
            ) < self.rank(n) && self.under(self.node(n).children@[k] as int, m)
    }

    /// A leaf that a node reaches lies under the node.
    pub proof fn lemma_reached_is_under(&self, n: int, l: int)
        requires
            self.reaches(n, l),
        ensures
            self.under(n, l),
        decreases self.rank(n),
    {
        if self.node(n).totnode != 0 {
            let k = choose|k: int|
                0 <= k < self.node(n).totnode && self.rank(
                    #[trigger] self.node(n).children@[k] as int,
                ) < self.rank(n) && self.reaches(self.node(n).children@[k] as int, l);
            self.lemma_reached_is_under(self.node(n).children@[k] as int, l);
        }
    }

    /// A node under another ranks lower.
    pub proof fn lemma_under_ranks(&self, n: int, m: int)
        requires
            self.under(n, m),
            n != m,
        ensures
            self.rank(m) < self.rank(n),
        decreases self.rank(n),
    {
        let k = choose|k: int|
            0 <= k < self.node(n).totnode && self.rank(
                #[trigger] self.node(n).children@[k] as int,
            ) < self.rank(n) && self.under(self.node(n).children@[k] as int, m);
        let c = self.node(n).children@[k] as int;
        if c != m {
            self.lemma_under_ranks(c, m);
        }
    }

    /// A node under another is the child of a node under that other: of
    /// the node that it names as its parent.
    pub proof fn lemma_parent_is_under(&self, n: int, m: int) -> (x: int)
        requires
            self.structured(),
            self.linked(),
            self.in_tree(n),
            self.under(n, m),
            n != m,
        ensures
            self.under(n, x),
            self.node(m).parent == Some(x as usize),
            self.totleaf <= x < self.totleaf + self.branches(),
        decreases self.rank(n),
    {
        let k = choose|k: int|
            0 <= k < self.node(n).totnode && self.rank(
                #[trigger] self.node(n).children@[k] as int,
            ) < self.rank(n) && self.under(self.node(n).children@[k] as int, m);
        let c = self.node(n).children@[k] as int;
        self.lemma_branch(n);
        self.lemma_child(n, k);
        if c == m {
            assert(self.node(self.node(n).children@[k] as int).parent == Some(n as usize));
            n
        } else {
            let x = self.lemma_parent_is_under(c, m);
            assert(self.under(n, x));
            x
        }
    }

    /// Of two nodes that reach one leaf, one lies under the other.
    pub proof fn lemma_one_line(&self, n: int, m: int, l: int)
        requires
            self.structured(),
            self.linked(),
            self.in_tree(n),
            self.in_tree(m),
            self.reaches(n, l),
            self.reaches(m, l),
        ensures
            self.under(n, m) || self.under(m, n),
        decreases self.rank(n) + self.rank(m),
    {
        if self.node(n).totnode == 0 {
            self.lemma_reached_is_under(m, l);
        } else if self.node(m).totnode == 0 {
            self.lemma_reached_is_under(n, l);
        } else {
            self.lemma_branch(n);
            self.lemma_branch(m);
            let kn = choose|k: int|
                0 <= k < self.node(n).totnode && self.rank(
                    #[trigger] self.node(n).children@[k] as int,
                ) < self.rank(n) && self.reaches(self.node(n).children@[k] as int, l);
            let km = choose|k: int|
                0 <= k < self.node(m).totnode && self.rank(
                    #[trigger] self.node(m).children@[k] as int,
                ) < self.rank(m) && self.reaches(self.node(m).children@[k] as int, l);
            let cn = self.node(n).children@[kn] as int;
            let cm = self.node(m).children@[km] as int;
            self.lemma_child(n, kn);
            self.lemma_child(m, km);
            assert(self.node(self.node(n).children@[kn] as int).parent == Some(n as usize));
            assert(self.node(self.node(m).children@[km] as int).parent == Some(m as usize));
            self.lemma_one_line(cn, cm, l);
            if cn == cm {
                assert(n == m);
            } else if self.under(cn, cm) {
                let x = self.lemma_parent_is_under(cn, cm);
                assert(x == m);
                assert(self.under(n, m));
            } else {
                let x = self.lemma_parent_is_under(cm, cn);
                assert(x == n);
                assert(self.under(m, n));
            }
        }
    }

    /// In a tree whose children name their parents, as after `balance`, no
    /// leaf lies under two children of a node: every leaf under a node is
    /// reached from it in one way.
    pub proof fn law_leaves_once(&self, s: int, k: int, m: int, l: int)
        requires
            self.structured(),
            self.linked(),
            self.totleaf <= s < self.totleaf + self.branches(),
            0 <= k < m < self.node(s).totnode,
        ensures
            !(self.reaches(self.node(s).children@[k] as int, l) && self.reaches(
                self.node(s).children@[m] as int,
                l,
            )),
    {
        let a = self.node(s).children@[k] as int;
        let b = self.node(s).children@[m] as int;
        self.lemma_child(s, k);
        self.lemma_child(s, m);
        assert(self.node(s).children@[k] != self.node(s).children@[m]);
        assert(self.node(self.node(s).children@[k] as int).parent == Some(s as usize));
        assert(self.node(self.node(s).children@[m] as int).parent == Some(s as usize));
        if self.reaches(a, l) && self.reaches(b, l) {
            self.lemma_one_line(a, b, l);
            if self.under(a, b) {
                let x = self.lemma_parent_is_under(a, b);
                assert(x == s);
                self.lemma_under_ranks(a, s);
            } else {
                let x = self.lemma_parent_is_under(b, a);
                assert(x == s);
                self.lemma_under_ranks(b, s);
            }
        }
    }
}

} // verus!
