//! Trees from their parts, for trees that were not made by `new`,
//! `insert` and `balance`: trees read back from where they were stored.
//! Such a tree is made only where its structure passes a test.

use crate::bvh::kdop::{bounded, BV_MAX, COORD_MAX};
use crate::bvh::store::{
    arena_get, arena_get_mut, arena_insert, arena_limit, arena_slots, arena_with_capacity,
    BVHNode, UNKNOWN,
};
use crate::bvh::{
    axis_config, blank_node, implicit_needed_branches, no_children, BVHTree, MAX_LEAVES,
    MAX_TREETYPE,
};
use vstd::prelude::*;

verus! {

/// Tests whether every entry of `bv` is within `BV_MAX` of zero.
fn is_bounded(bv: &Vec<i64>) -> (r: bool)
    ensures
        r == bounded(bv@),
{
    let mut k: usize = 0;
    while k < bv.len()
        invariant
            k <= bv@.len(),
            forall|q: int| 0 <= q < k ==> -BV_MAX <= #[trigger] bv@[q] <= BV_MAX,
        decreases bv@.len() - k,
    {
        if bv[k] < -BV_MAX || bv[k] > BV_MAX {
            return false;
        }
        k = k + 1;
    }
    true
}

/// Whether every entry of `children` from `from` on is `UNKNOWN`.
pub open spec fn unused_from(children: Seq<usize>, from: int) -> bool {
    forall|k: int| from <= k < children.len() ==> #[trigger] children[k] == UNKNOWN
}

/// Tests whether every entry of `children` from `from` on is `UNKNOWN`.
fn is_unused_from(children: &Vec<usize>, from: usize) -> (r: bool)
    ensures
        r == unused_from(children@, from as int),
{
    let mut k: usize = from;
    while k < children.len()
        invariant
            from <= k,
            forall|q: int| from <= q < k && q < children@.len() ==> #[trigger] children@[q] == UNKNOWN,
        decreases children@.len() - k,
    {
        if children[k] != UNKNOWN {
            return false;
        }
        k = k + 1;
    }
    true
}

impl<E: Copy> BVHTree<E> {
    /// Whether the node in slot `s` is what its place asks for: a leaf
    /// before `totleaf`, then an inner node, then a node not in use.
    pub open spec fn node_ok(&self, s: int) -> bool {
        &&& self.shape_ok(s)
        &&& s < self.totleaf ==> self.leaf_ok(s)
        &&& self.totleaf <= s < self.totleaf + self.branches() ==> self.branch_shape(
            s,
            self.branches(),
        )
        &&& self.totleaf + self.branches() <= s ==> self.blank_ok(s)
    }

    /// Whether the counts of the tree go together.
    pub open spec fn counts_ok(&self) -> bool {
        &&& self.totleaf <= self.max_size
        &&& self.elems@.len() == self.totleaf
        &&& self.totbranch == 0 || self.totbranch == crate::bvh::needed_branches(
            self.tree_type as int,
            self.totleaf as int,
        )
        &&& self.totleaf == 0 ==> self.totbranch == 0
        &&& self.totleaf + self.branches() <= self.nodes@.len()
    }

    /// Whether every handle has a node in the store, and the store no
    /// other.
    pub open spec fn slots_ok(&self) -> bool {
        arena_slots(self.node_array).dom() =~= Set::new(|s: int| 0 <= s < self.nodes@.len())
    }

    /// A tree is structured where its parameters, its counts, its store,
    /// its handles and each of its nodes are in order.
    pub proof fn lemma_structured_parts(&self)
        ensures
            self.structured() == (self.config_ok() && self.slots_ok() && self.counts_ok()
                && self.handles_ok() && forall|s: int|
                0 <= s < self.nodes@.len() ==> #[trigger] self.node_ok(s)),
    {
        if self.structured() {
            assert forall|s: int| 0 <= s < self.nodes@.len() implies #[trigger] self.node_ok(
                s,
            ) by {
                assert(self.shape_ok(s));
                if s < self.totleaf {
                    assert(self.leaf_ok(s));
                } else if s < self.totleaf + self.branches() {
                    assert(self.branch_shape(s, self.branches()));
                } else {
                    assert(self.blank_ok(s));
                }
            }
        }
        if self.config_ok() && self.slots_ok() && self.counts_ok() && self.handles_ok()
            && forall|s: int| 0 <= s < self.nodes@.len() ==> #[trigger] self.node_ok(s) {
            assert forall|s: int| 0 <= s < self.nodes@.len() implies #[trigger] self.shape_ok(
                s,
            ) by {
                assert(self.node_ok(s));
            }
            assert forall|s: int| 0 <= s < self.totleaf implies #[trigger] self.leaf_ok(s) by {
                assert(self.node_ok(s));
            }
            assert forall|s: int|
                self.totleaf <= s < self.totleaf + self.branches() implies #[trigger] self.branch_shape(
                s,
                self.branches(),
            ) by {
                assert(self.node_ok(s));
            }
            assert forall|s: int|
                self.totleaf + self.branches() <= s < self.nodes@.len() implies #[trigger] self.blank_ok(
                s,
            ) by {
                assert(self.node_ok(s));
            }
        }
    }

    /// Tests the parameters of the tree.
    fn config_good(&self) -> (r: bool)
        ensures
            r == self.config_ok(),
    {
        if self.tree_type < 2 || self.tree_type > MAX_TREETYPE {
            return false;
        }
        let axes = (self.axis == 26 && self.start_axis == 0 && self.stop_axis == 13) || (self.axis
            == 18 && self.start_axis == 7 && self.stop_axis == 13) || (self.axis == 14
            && self.start_axis == 0 && self.stop_axis == 7) || (self.axis == 8 && self.start_axis
            == 0 && self.stop_axis == 4) || (self.axis == 6 && self.start_axis == 0
            && self.stop_axis == 3);
        if !axes || self.epsilon < 1 || self.epsilon > COORD_MAX || self.max_size > MAX_LEAVES {
            return false;
        }
        let branches = implicit_needed_branches(self.tree_type, self.max_size);
        self.nodes.len() == self.max_size + branches + self.tree_type as usize
    }

    /// Counts the inner nodes that are built.
    fn branch_count(&self) -> (r: usize)
        requires
            self.nodes@.len() >= 2,
        ensures
            r == self.branches(),
    {
        if self.totbranch > 0 {
            self.totbranch
        } else if self.totleaf == 1 && self.nodes[1] == 1 {
            1
        } else {
            0
        }
    }

    /// Tests the counts of the tree.
    fn counts_good(&self) -> (r: bool)
        requires
            self.config_ok(),
        ensures
            r == self.counts_ok(),
    {
        if self.totleaf > self.max_size || self.elems.len() != self.totleaf {
            return false;
        }
        if self.totbranch != 0 && self.totbranch != implicit_needed_branches(
            self.tree_type,
            self.totleaf,
        ) {
            return false;
        }
        if self.totleaf == 0 && self.totbranch != 0 {
            return false;
        }
        let count = self.branch_count();
        proof {
            crate::bvh::lemma_needed_branches(
                self.tree_type as int,
                self.totleaf as int,
                self.totleaf as int,
            );
        }
        self.totleaf + count <= self.nodes.len()
    }

    /// Tests the handle list.
    fn handles_good(&self) -> (r: bool)
        requires
            self.config_ok(),
            self.counts_ok(),
        ensures
            r == self.handles_ok(),
    {
        let count = self.branch_count();
        let totleaf = self.totleaf;
        let built = totleaf + count;
        // where each leaf is named
        let mut seen: Vec<usize> = Vec::new();
        let mut h: usize = 0;
        while h < totleaf
            invariant
                h <= totleaf,
                seen@.len() == h,
                forall|q: int| 0 <= q < h ==> #[trigger] seen@[q] == usize::MAX,
            decreases totleaf - h,
        {
            seen.push(usize::MAX);
            h = h + 1;
        }
        let mut p: usize = 0;
        while p < totleaf
            invariant
                p <= totleaf,
                totleaf == self.totleaf,
                totleaf <= MAX_LEAVES,
                built == totleaf + count,
                built <= self.nodes@.len(),
                count == self.branches(),
                seen@.len() == totleaf,
                forall|q: int|
                    0 <= q < p ==> 0 <= #[trigger] self.nodes@[q] < totleaf && seen@[self.nodes@[q] as int]
                        == q,
                forall|h: int|
                    0 <= h < totleaf ==> #[trigger] seen@[h] == usize::MAX || (seen@[h] < p
                        && self.nodes@[seen@[h] as int] == h),
            decreases totleaf - p,
        {
            let handle = self.nodes[p];
            if handle >= totleaf {
                return false;
            }
            if seen[handle] != usize::MAX {
                proof {
                    let q = seen@[handle as int] as int;
                    assert(self.nodes@[q] == self.nodes@[p as int]);
                }
                return false;
            }
            let ghost before = seen@;
            seen.set(handle, p);
            proof {
                assert forall|q: int| 0 <= q < p + 1 implies 0 <= #[trigger] self.nodes@[q]
                    < totleaf && seen@[self.nodes@[q] as int] == q by {
                    if q < p {
                        assert(before[self.nodes@[q] as int] == q);
                    }
                }
                assert forall|h: int| 0 <= h < totleaf implies #[trigger] seen@[h] == usize::MAX
                    || (seen@[h] < p + 1 && self.nodes@[seen@[h] as int] == h) by {
                    if h != handle {
                        assert(seen@[h] == before[h]);
                    }
                }
            }
            p = p + 1;
        }
        proof {
            assert forall|a: int, b: int| 0 <= a < b < totleaf implies #[trigger] self.nodes@[a]
                != #[trigger] self.nodes@[b] by {
                assert(seen@[self.nodes@[a] as int] == a);
                assert(seen@[self.nodes@[b] as int] == b);
            }
        }
        while p < built
            invariant
                totleaf <= p <= built,
                built == totleaf + count,
                built <= self.nodes@.len(),
                totleaf == self.totleaf,
                count == self.branches(),
                forall|q: int| totleaf <= q < p ==> #[trigger] self.nodes@[q] == q,
            decreases built - p,
        {
            if self.nodes[p] != p {
                proof {
                    assert(self.nodes@[p as int] != p);
                }
                return false;
            }
            p = p + 1;
        }
        while p < self.nodes.len()
            invariant
                built <= p <= self.nodes@.len(),
                built == totleaf + count,
                totleaf == self.totleaf,
                count == self.branches(),
                forall|q: int| totleaf + count <= q < p ==> #[trigger] self.nodes@[q] == UNKNOWN,
            decreases self.nodes@.len() - p,
        {
            if self.nodes[p] != UNKNOWN {
                proof {
                    assert(self.nodes@[p as int] != UNKNOWN);
                }
                return false;
            }
            p = p + 1;
        }
        true
    }

    /// Tests whether the leading `node.totnode` children of the inner
    /// node `node`, in slot `s`, are placed as children can be.
    fn children_placed(&self, node: &BVHNode, s: usize, count: usize) -> (r: bool)
        requires
            count == self.branches(),
            self.totleaf + count <= usize::MAX,
            node.totnode <= node.children@.len(),
        ensures
            r == forall|k: int|
                0 <= k < node.totnode ==> self.child_placed(
                    s as int,
                    #[trigger] node.children@[k] as int,
                    count as int,
                ),
    {
        let mut k: usize = 0;
        while k < node.totnode as usize
            invariant
                k <= node.totnode,
                node.totnode <= node.children@.len(),
                count == self.branches(),
                self.totleaf + count <= usize::MAX,
                forall|q: int|
                    0 <= q < k ==> self.child_placed(
                        s as int,
                        #[trigger] node.children@[q] as int,
                        count as int,
                    ),
            decreases node.totnode - k,
        {
            let c = node.children[k];
            if !(c < self.totleaf || (s < c && c < self.totleaf + count)) {
                proof {
                    assert(!self.child_placed(s as int, node.children@[k as int] as int, count as int));
                }
                return false;
            }
            k = k + 1;
        }
        true
    }

    /// Tests the node in slot `s`.
    fn node_good(&self, s: usize, count: usize) -> (r: bool)
        requires
            self.config_ok(),
            self.slots_ok(),
            self.counts_ok(),
            count == self.branches(),
            s < self.nodes@.len(),
        ensures
            r == self.node_ok(s as int),
    {
        proof {
            assert(Set::new(|q: int| 0 <= q < self.nodes@.len()).contains(s as int));
        }
        let node = arena_get(&self.node_array, s).unwrap();
        if node.bv.len() != self.axis as usize || node.children.len()
            != self.tree_type as usize || !is_bounded(&node.bv) {
            return false;
        }
        if s < self.totleaf {
            let named = match node.elem_index {
                Some(e) => e == s,
                None => false,
            };
            let unused = is_unused_from(&node.children, 0);
            proof {
                assert(unused == no_children(node.children@));
            }
            node.totnode == 0 && named && unused
        } else if s < self.totleaf + count {
            if node.elem_index.is_some() || node.totnode < 1 || node.totnode > self.tree_type
                || node.main_axis >= 3 {
                return false;
            }
            let placed = self.children_placed(node, s, count);
            let unused = is_unused_from(&node.children, node.totnode as usize);
            proof {
                assert(unused == (forall|k: int|
                    node.totnode <= k < self.tree_type ==> #[trigger] node.children@[k]
                        == UNKNOWN));
            }
            placed && unused
        } else {
            let unused = is_unused_from(&node.children, 0);
            proof {
                assert(unused == no_children(node.children@));
            }
            node.totnode == 0 && node.elem_index.is_none() && unused
        }
    }

    /// Tests whether the tree is structured, where every handle has a
    /// node in the store, and the store no other.
    fn is_structured(&self) -> (r: bool)
        requires
            self.slots_ok(),
        ensures
            r == self.structured(),
    {
        proof {
            self.lemma_structured_parts();
        }
        if !self.config_good() {
            return false;
        }
        if !self.counts_good() {
            return false;
        }
        if !self.handles_good() {
            return false;
        }
        let count = self.branch_count();
        let mut s: usize = 0;
        while s < self.nodes.len()
            invariant
                s <= self.nodes@.len(),
                self.config_ok(),
                self.slots_ok(),
                self.counts_ok(),
                count == self.branches(),
                forall|q: int| 0 <= q < s ==> #[trigger] self.node_ok(q),
            decreases self.nodes@.len() - s,
        {
            if !self.node_good(s, count) {
                return false;
            }
            s = s + 1;
        }
        true
    }

    /// Whether this tree has the handles, the elements and the
    /// parameters of `parts`.
    pub open spec fn made_of(&self, parts: &BVHParts<E>) -> bool {
        &&& self.nodes@ == parts.nodes@
        &&& self.elems@ == parts.elems@
        &&& self.max_size == parts.max_size
        &&& self.epsilon == parts.epsilon
        &&& self.totleaf == parts.totleaf
        &&& self.totbranch == parts.totbranch
        &&& self.start_axis == parts.start_axis
        &&& self.stop_axis == parts.stop_axis
        &&& self.axis == parts.axis
        &&& self.tree_type == parts.tree_type
    }

    /// Whether this tree is made of `parts`, with node `s` of `node_list`
    /// in slot `s` of its store and no other node there.
    pub open spec fn holds_parts(&self, parts: &BVHParts<E>, node_list: Seq<BVHNode>) -> bool {
        &&& self.made_of(parts)
        &&& self.slots_ok()
        &&& node_list.len() == self.nodes@.len()
        &&& forall|s: int| 0 <= s < node_list.len() ==> #[trigger] self.node(s) == node_list[s]
    }

    /// Two trees of the same parts are both structured, or neither is.
    pub proof fn lemma_structured_alike(
        &self,
        other: &Self,
        parts: &BVHParts<E>,
        node_list: Seq<BVHNode>,
    )
        requires
            self.holds_parts(parts, node_list),
            other.holds_parts(parts, node_list),
        ensures
            self.structured() == other.structured(),
    {
        self.lemma_structured_parts();
        other.lemma_structured_parts();
        assert(self.branches() == other.branches());
        assert forall|s: int| 0 <= s < self.nodes@.len() implies #[trigger] self.node_ok(s)
            == other.node_ok(s) by {
            assert(self.node(s) == node_list[s]);
            assert(other.node(s) == node_list[s]);
            assert(self.bv(s) == other.bv(s));
        }
        if forall|s: int| 0 <= s < self.nodes@.len() ==> #[trigger] self.node_ok(s) {
            assert forall|s: int| 0 <= s < other.nodes@.len() implies #[trigger] other.node_ok(
                s,
            ) by {
                assert(self.node_ok(s));
            }
        }
        if forall|s: int| 0 <= s < other.nodes@.len() ==> #[trigger] other.node_ok(s) {
            assert forall|s: int| 0 <= s < self.nodes@.len() implies #[trigger] self.node_ok(
                s,
            ) by {
                assert(other.node_ok(s));
            }
        }
    }

    /// Makes a tree of its parts, with node `s` of `node_list` in slot `s`
    /// of the store, where that is a structured tree: a tree that `new`,
    /// `insert`, `balance` and the updates could have left, but for what
    /// its bounding volumes hold. Returns `None` where the parts do not go
    /// together.
    pub fn from_parts(parts: BVHParts<E>, node_list: Vec<BVHNode>) -> (r: Option<Self>)
        ensures
            r.is_some() ==> r.unwrap().holds_parts(&parts, node_list@) && r.unwrap().structured(),
            r.is_some() == (node_list@.len() == parts.nodes@.len() && exists|tree: Self|
                #[trigger] tree.holds_parts(&parts, node_list@) && tree.structured()),
    {
        let n = node_list.len();
        if n != parts.nodes.len() {
            return None;
        }
        let ghost all = node_list@;
        // the store is filled with nodes not in use, which the nodes
        // given then take the place of, each in the slot of its number
        let mut node_array = arena_with_capacity(n);
        let mut i: usize = 0;
        while i < n
            invariant
                i <= n,
                arena_limit(node_array) == vstd::math::max(n as int, 1),
                arena_slots(node_array).dom().finite(),
                arena_slots(node_array).dom().len() == i,
                arena_slots(node_array).dom().subset_of(Set::new(|s: int| 0 <= s < n)),
            decreases n - i,
        {
            let _slot = arena_insert(&mut node_array, blank_node(0, 0));
            i = i + 1;
        }
        proof {
            let full = Set::new(|s: int| 0 <= s < n);
            assert(full =~= vstd::set_lib::set_int_range(0, n as int));
            vstd::set_lib::lemma_int_range(0, n as int);
            vstd::set_lib::lemma_subset_equality(arena_slots(node_array).dom(), full);
        }
        let mut rest = node_list;
        let mut turned: Vec<BVHNode> = Vec::new();
        while rest.len() > 0
            invariant
                rest@.len() + turned@.len() == n,
                all.len() == n,
                forall|k: int| 0 <= k < rest@.len() ==> #[trigger] rest@[k] == all[k],
                forall|k: int| 0 <= k < turned@.len() ==> #[trigger] turned@[k] == all[n - 1 - k],
            decreases rest@.len(),
        {
            let node = rest.pop().unwrap();
            turned.push(node);
        }
        let mut s: usize = 0;
        while s < n
            invariant
                s <= n,
                all.len() == n,
                turned@.len() == n - s,
                forall|k: int| 0 <= k < turned@.len() ==> #[trigger] turned@[k] == all[n - 1 - k],
                arena_slots(node_array).dom() =~= Set::new(|q: int| 0 <= q < n),
                forall|q: int| 0 <= q < s ==> #[trigger] arena_slots(node_array)[q] == all[q],
            decreases n - s,
        {
            let node = turned.pop().unwrap();
            let ghost before = arena_slots(node_array);
            proof {
                assert(node == all[s as int]);
                assert(Set::new(|q: int| 0 <= q < n).contains(s as int));
            }
            let place = arena_get_mut(&mut node_array, s);
            *place = node;
            proof {
                assert forall|q: int| 0 <= q < s + 1 implies #[trigger] arena_slots(
                    node_array,
                )[q] == all[q] by {
                    if q < s {
                        assert(before[q] == all[q]);
                    }
                }
            }
            s = s + 1;
        }
        let ghost given = parts;
        let tree = BVHTree {
            nodes: parts.nodes,
            node_array,
            elems: parts.elems,
            max_size: parts.max_size,
            epsilon: parts.epsilon,
            totleaf: parts.totleaf,
            totbranch: parts.totbranch,
            start_axis: parts.start_axis,
            stop_axis: parts.stop_axis,
            axis: parts.axis,
            tree_type: parts.tree_type,
        };
        proof {
            assert(tree.holds_parts(&given, all));
        }
        if tree.is_structured() {
            Some(tree)
        } else {
            proof {
                assert forall|other: Self| #[trigger]
                    other.holds_parts(&given, all) implies !other.structured() by {
                    tree.lemma_structured_alike(&other, &given, all);
                }
            }
            None
        }
    }
}

/// The parts of a tree but for its nodes: its handles, its elements and
/// its parameters.
pub struct BVHParts<E: Copy> {
    pub nodes: Vec<usize>,
    pub elems: Vec<E>,
    pub max_size: usize,
    pub epsilon: i64,
    pub totleaf: usize,
    pub totbranch: usize,
    pub start_axis: u8,
    pub stop_axis: u8,
    pub axis: u8,
    pub tree_type: u8,
}

} // verus!
