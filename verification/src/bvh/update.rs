//! Refreshing bounding volumes without rebuilding the tree.

use crate::bvh::balance::{lemma_union_bounded, lemma_union_contains_member};
use crate::bvh::construct::{is_union, only_bv_changed, refit_kdop_hull};
use crate::bvh::kdop::{
    all_in_range, bounded, contains_bv, create_kdop_hull, first_axis, fits, grow_hi, grow_lo, hi, hull_hi, hull_lo, lemma_grow_bounds, lo, same_outside, BV_MAX, HULL_EMPTY,
};
use crate::bvh::store::{arena_get, arena_get_mut, arena_slots, UNKNOWN};
use crate::bvh::{inflate, BVHError, BVHTree};
use crate::vector::Vec3;
use vstd::prelude::*;

verus! {

impl<E: Copy> BVHTree<E> {
    /// Whether this tree has the nodes of `prev` but for the volume of the
    /// node in slot `s`, and everything else of `prev`.
    pub open spec fn only_volume_changed(&self, prev: &Self, s: int) -> bool {
        &&& self.same_config(prev)
        &&& self.totleaf == prev.totleaf
        &&& self.totbranch == prev.totbranch
        &&& self.elems@ == prev.elems@
        &&& self.nodes@ == prev.nodes@
        &&& only_bv_changed(arena_slots(prev.node_array), arena_slots(self.node_array), s)
    }

    /// A structured tree stays structured when one volume changes, as long
    /// as it stays bounded.
    pub proof fn lemma_structured_kept(&self, prev: &Self, s: int)
        requires
            prev.structured(),
            self.only_volume_changed(prev, s),
            0 <= s < prev.nodes@.len(),
            bounded(self.bv(s)),
        ensures
            self.structured(),
    {
        assert(self.branches() == prev.branches());
        assert forall|x: int| 0 <= x < self.nodes@.len() implies #[trigger] self.shape_ok(x) by {
            assert(prev.shape_ok(x));
        }
        assert forall|x: int| 0 <= x < self.totleaf implies #[trigger] self.leaf_ok(x) by {
            assert(prev.leaf_ok(x));
        }
        assert forall|x: int|
            self.totleaf <= x < self.totleaf + self.branches() implies #[trigger] self.branch_shape(
            x,
            self.branches(),
        ) by {
            assert(prev.branch_shape(x, prev.branches()));
        }
        assert forall|x: int|
            self.totleaf + self.branches() <= x < self.nodes@.len() implies #[trigger] self.blank_ok(
            x,
        ) by {
            assert(prev.blank_ok(x));
        }
    }

    /// In two structured trees with the same children, the same leaves lie
    /// under a node.
    pub proof fn lemma_reaches_kept(&self, prev: &Self, n: int, l: int)
        requires
            self.structured(),
            prev.structured(),
            self.totleaf == prev.totleaf,
            self.nodes@.len() == prev.nodes@.len(),
            self.branches() == prev.branches(),
            forall|s: int|
                #![trigger self.node(s)]
                #![trigger prev.node(s)]
                0 <= s < self.nodes@.len() ==> self.node(s).totnode == prev.node(s).totnode
                    && self.node(s).children@ == prev.node(s).children@,
            self.in_tree(n),
        ensures
            self.reaches(n, l) == prev.reaches(n, l),
        decreases self.rank(n),
    {
        assert(self.node(n).totnode == prev.node(n).totnode);
        assert(self.node(n).children@ == prev.node(n).children@);
        if self.node(n).totnode != 0 {
            self.lemma_branch(n);
            if self.reaches(n, l) {
                let k = choose|k: int|
                    0 <= k < self.node(n).totnode && self.rank(
                        #[trigger] self.node(n).children@[k] as int,
                    ) < self.rank(n) && self.reaches(self.node(n).children@[k] as int, l);
                self.lemma_child(n, k);
                self.lemma_reaches_kept(prev, self.node(n).children@[k] as int, l);
                assert(prev.rank(prev.node(n).children@[k] as int) < prev.rank(n));
                assert(prev.reaches(prev.node(n).children@[k] as int, l));
            }
            if prev.reaches(n, l) {
                let k = choose|k: int|
                    0 <= k < prev.node(n).totnode && prev.rank(
                        #[trigger] prev.node(n).children@[k] as int,
                    ) < prev.rank(n) && prev.reaches(prev.node(n).children@[k] as int, l);
                self.lemma_child(n, k);
                self.lemma_reaches_kept(prev, self.node(n).children@[k] as int, l);
                assert(self.rank(self.node(n).children@[k] as int) < self.rank(n));
                assert(self.reaches(self.node(n).children@[k] as int, l));
            }
        }
    }

    /// A structured tree with the children of another has every leaf
    /// under the root if the other has.
    pub proof fn lemma_spanning_kept(&self, prev: &Self)
        requires
            self.structured(),
            prev.structured(),
            self.totleaf == prev.totleaf,
            self.nodes@.len() == prev.nodes@.len(),
            self.branches() == prev.branches(),
            forall|s: int|
                #![trigger self.node(s)]
                #![trigger prev.node(s)]
                0 <= s < self.nodes@.len() ==> self.node(s).totnode == prev.node(s).totnode
                    && self.node(s).children@ == prev.node(s).children@,
        ensures
            prev.spanning() ==> self.spanning(),
    {
        if prev.spanning() {
            assert forall|l: int| 0 <= l < self.totleaf implies #[trigger] self.reaches(
                self.root(),
                l,
            ) by {
                assert(prev.reaches(prev.root(), l));
                if self.branches() > 0 {
                    self.lemma_reaches_kept(prev, self.root(), l);
                } else {
                    // without a root nothing lies under it
                    assert(prev.blank_ok(prev.root()));
                    assert(self.blank_ok(self.root()));
                    assert(self.leaf_ok(l));
                }
            }
        }
    }

    /// Gives the leaf at position `node_index` the hull of `co_many`, and of
    /// `co_moving_many` too where that is not empty, widened by `epsilon`.
    /// The inner nodes are left as they are: `update_tree` refits them.
    pub fn update_node(
        &mut self,
        node_index: usize,
        co_many: &[Vec3],
        co_moving_many: &[Vec3],
    ) -> (r: Result<(), BVHError>)
        requires
            old(self).structured(),
            all_in_range(co_many@),
            all_in_range(co_moving_many@),
        ensures
            final(self).structured(),
            (r == Err::<(), BVHError>(BVHError::IndexOutOfRange)) == (node_index >= old(
                self,
            ).totleaf),
            (r == Err::<(), BVHError>(BVHError::DifferentNumPoints)) == (node_index < old(
                self,
            ).totleaf && co_moving_many@.len() != 0 && co_many@.len() != co_moving_many@.len()),
            r.is_ok() == (node_index < old(self).totleaf && (co_moving_many@.len() == 0
                || co_many@.len() == co_moving_many@.len())),
            r.is_err() ==> *final(self) == *old(self),
            old(self).spanning() ==> final(self).spanning(),
            old(self).linked() ==> final(self).linked(),
            r.is_ok() ==> final(self).only_volume_changed(old(self), node_index as int),
            r.is_ok() && co_many@.len() > 0 && old(self).cardinal() ==> crate::bvh::nearest_law::solid(
                final(self).bv(node_index as int),
            ),
            r.is_ok() ==> same_outside(
                final(self).bv(node_index as int),
                old(self).bv(node_index as int),
                old(self).start_axis as int,
                old(self).stop_axis as int,
            ),
            r.is_ok() ==> forall|a: int|
                #![trigger lo(final(self).bv(node_index as int), a)]
                #![trigger hi(final(self).bv(node_index as int), a)]
                old(self).start_axis <= a < old(self).stop_axis ==> lo(
                    final(self).bv(node_index as int),
                    a,
                ) == grow_lo(hull_lo(co_many@, a), co_moving_many@, a) - old(self).epsilon && hi(
                    final(self).bv(node_index as int),
                    a,
                ) == grow_hi(hull_hi(co_many@, a), co_moving_many@, a) + old(self).epsilon,
    {
        if node_index >= self.totleaf {
            return Err(BVHError::IndexOutOfRange);
        }
        if co_moving_many.len() != 0 && co_many.len() != co_moving_many.len() {
            return Err(BVHError::DifferentNumPoints);
        }
        let start_axis = self.start_axis;
        let stop_axis = self.stop_axis;
        let epsilon = self.epsilon;
        proof {
            assert(old(self).shape_ok(node_index as int));
        }
        let node = arena_get_mut(&mut self.node_array, node_index);
        let ghost before = node.bv@;
        create_kdop_hull(&mut node.bv, start_axis, stop_axis, co_many, false);
        let ghost fixed = node.bv@;
        if co_moving_many.len() != 0 {
            create_kdop_hull(&mut node.bv, start_axis, stop_axis, co_moving_many, true);
        }
        let ghost tight = node.bv@;
        proof {
            assert forall|a: int|
                #![trigger lo(tight, a)]
                #![trigger hi(tight, a)]
                start_axis <= a < stop_axis implies lo(tight, a) == grow_lo(
                hull_lo(co_many@, a),
                co_moving_many@,
                a,
            ) && hi(tight, a) == grow_hi(hull_hi(co_many@, a), co_moving_many@, a) && -HULL_EMPTY
                <= lo(tight, a) <= HULL_EMPTY && -HULL_EMPTY <= hi(tight, a) <= HULL_EMPTY by {
                lemma_grow_bounds(HULL_EMPTY as int, -HULL_EMPTY as int, co_many@, a);
                lemma_grow_bounds(
                    hull_lo(co_many@, a),
                    hull_hi(co_many@, a),
                    co_moving_many@,
                    a,
                );
                assert(lo(fixed, a) == hull_lo(co_many@, a));
                assert(hi(fixed, a) == hull_hi(co_many@, a));
                if co_moving_many@.len() == 0 {
                    assert(lo(tight, a) == lo(fixed, a));
                    assert(hi(tight, a) == hi(fixed, a));
                }
            }
        }
        inflate(&mut node.bv, start_axis, stop_axis, epsilon);
        let ghost wide = node.bv@;
        proof {
            assert forall|k: int| 0 <= k < wide.len() implies -BV_MAX <= #[trigger] wide[k]
                <= BV_MAX by {
                let f = first_axis(wide);
                assert(first_axis(tight) == f && first_axis(fixed) == f && first_axis(before) == f);
                if 2 * (start_axis - f) <= k < 2 * (stop_axis - f) {
                    let a = k / 2 + f;
                    if k % 2 == 0 {
                        assert(wide[k] == lo(wide, a));
                        assert(lo(wide, a) == lo(tight, a) - epsilon);
                        assert(-HULL_EMPTY <= lo(tight, a) <= HULL_EMPTY);
                    } else {
                        assert(wide[k] == hi(wide, a));
                        assert(hi(wide, a) == hi(tight, a) + epsilon);
                        assert(-HULL_EMPTY <= hi(tight, a) <= HULL_EMPTY);
                    }
                } else {
                    assert(wide[k] == tight[k]);
                    assert(tight[k] == fixed[k]);
                    assert(fixed[k] == before[k]);
                }
            }
            assert(self.bv(node_index as int) == wide);
            assert forall|a: int|
                #![trigger lo(wide, a)]
                #![trigger hi(wide, a)]
                start_axis <= a < stop_axis implies lo(wide, a) == grow_lo(
                hull_lo(co_many@, a),
                co_moving_many@,
                a,
            ) - epsilon && hi(wide, a) == grow_hi(hull_hi(co_many@, a), co_moving_many@, a)
                + epsilon by {
                assert(lo(wide, a) == lo(tight, a) - epsilon);
                assert(hi(wide, a) == hi(tight, a) + epsilon);
            }
            self.lemma_structured_kept(old(self), node_index as int);
            self.lemma_spanning_kept(old(self));
            if old(self).linked() {
                self.lemma_linked_kept(old(self));
            }
            if co_many@.len() > 0 && start_axis == 0 {
                assert forall|i: int|
                    #![trigger lo(wide, i)]
                    #![trigger hi(wide, i)]
                    0 <= i < 3 implies lo(wide, i) <= hi(wide, i) by {
                    lemma_grow_bounds(HULL_EMPTY as int, -HULL_EMPTY as int, co_many@, i);
                    lemma_grow_bounds(
                        hull_lo(co_many@, i),
                        hull_hi(co_many@, i),
                        co_moving_many@,
                        i,
                    );
                    crate::bvh::kdop::lemma_project_bound(co_many@[0], i);
                    assert(hull_lo(co_many@, i) <= crate::bvh::kdop::project(co_many@[0], i)
                        <= hull_hi(co_many@, i));
                    assert(lo(wide, i) == lo(tight, i) - epsilon);
                    assert(hi(wide, i) == hi(tight, i) + epsilon);
                }
            }
        }
        Ok(())
    }
}

impl<E: Copy> BVHTree<E> {
    /// The handles of the children of the inner node in slot `s`.
    pub open spec fn children_of(&self, s: int) -> Seq<usize> {
        self.node(s).children@.subrange(0, self.node(s).totnode as int)
    }

    /// Whether the volume of the inner node in slot `s` is the union of
    /// the volumes of its children.
    pub open spec fn joined(&self, s: int) -> bool {
        is_union(
            self.bv(s),
            arena_slots(self.node_array),
            self.children_of(s),
            self.start_axis as int,
            self.stop_axis as int,
        )
    }

    /// Sets the volume of the inner node behind the handle at
    /// `nodes_index` to the union of the volumes of its children.
    fn node_join(&mut self, nodes_index: usize)
        requires
            old(self).structured(),
            old(self).totleaf <= nodes_index < old(self).totleaf + old(self).branches(),
        ensures
            final(self).structured(),
            final(self).only_volume_changed(old(self), nodes_index as int),
            final(self).joined(nodes_index as int),
            same_outside(
                final(self).bv(nodes_index as int),
                old(self).bv(nodes_index as int),
                old(self).start_axis as int,
                old(self).stop_axis as int,
            ),
    {
        let node_index = self.nodes[nodes_index];
        let ghost s = nodes_index as int;
        let ghost slots0 = arena_slots(self.node_array);
        let tree_type = self.tree_type;
        proof {
            assert(self.branch_shape(s, self.branches()));
            assert(self.shape_ok(s));
        }
        // the handles of the children, up to the first that names no node
        let mut children: Vec<usize> = Vec::new();
        let mut i: u8 = 0;
        while i < tree_type
            invariant
                i <= tree_type,
                tree_type == self.tree_type,
                node_index == s,
                *self == *old(self),
                self.structured(),
                self.totleaf <= s < self.totleaf + self.branches(),
                self.branch_shape(s, self.branches()),
                self.shape_ok(s),
                i <= self.node(s).totnode,
                children@ == self.node(s).children@.subrange(0, i as int),
            ensures
                children@ == self.children_of(s),
            decreases tree_type - i,
        {
            let node = arena_get(&self.node_array, node_index).unwrap();
            let child_index = node.children[i as usize];
            proof {
                if i < self.node(s).totnode {
                    assert(self.child_placed(s, child_index as int, self.branches()));
                } else {
                    assert(child_index == UNKNOWN);
                }
            }
            if arena_get(&self.node_array, child_index).is_some() {
                children.push(child_index);
                proof {
                    assert(children@ =~= self.node(s).children@.subrange(0, i + 1));
                }
            } else {
                break ;
            }
            i = i + 1;
        }
        let joined = children.len();
        proof {
            assert forall|p: int| 0 <= p < joined implies arena_slots(
                self.node_array,
            ).dom().contains(#[trigger] children@[p] as int) && children@[p] != node_index
                && fits(
                arena_slots(self.node_array)[children@[p] as int].bv@,
                self.start_axis as int,
                self.stop_axis as int,
            ) by {
                assert(children@[p] == self.node(s).children@[p]);
                assert(self.child_placed(s, children@[p] as int, self.branches()));
                assert(self.shape_ok(children@[p] as int));
            }
            assert(children@.subrange(0, joined as int) =~= children@);
        }
        refit_kdop_hull(
            &children,
            &mut self.node_array,
            node_index,
            0,
            joined,
            self.start_axis,
            self.stop_axis,
        );
        proof {
            let slots1 = arena_slots(self.node_array);
            assert forall|p: int| 0 <= p < children@.len() implies bounded(
                slots0[#[trigger] children@[p] as int].bv@,
            ) && fits(
                slots0[children@[p] as int].bv@,
                self.start_axis as int,
                self.stop_axis as int,
            ) by {
                assert(children@[p] == old(self).node(s).children@[p]);
                assert(old(self).child_placed(s, children@[p] as int, old(self).branches()));
                assert(old(self).shape_ok(children@[p] as int));
            }
            lemma_union_bounded(
                slots1[s].bv@,
                slots0[s].bv@,
                slots0,
                children@,
                self.start_axis as int,
                self.stop_axis as int,
            );
            self.lemma_structured_kept(old(self), s);
            assert(self.children_of(s) == children@);
            assert forall|a: int|
                #![trigger lo(self.bv(s), a)]
                #![trigger hi(self.bv(s), a)]
                self.start_axis <= a < self.stop_axis implies lo(self.bv(s), a)
                == crate::bvh::construct::union_lo(slots1, children@, a) && hi(self.bv(s), a)
                == crate::bvh::construct::union_hi(slots1, children@, a) by {
                assert forall|p: int| 0 <= p < children@.len() implies slots0[#[trigger] children@[p] as int].bv@
                    == slots1[children@[p] as int].bv@ by {
                    assert(children@[p] == old(self).node(s).children@[p]);
                    assert(old(self).child_placed(s, children@[p] as int, old(self).branches()));
                }
                crate::bvh::construct::lemma_union_same(slots0, slots1, children@, a);
            }
        }
    }

    /// Refits every inner node to its children, from the last to the root.
    /// To be called after the leaves were changed by `update_node`.
    pub fn update_tree(&mut self)
        requires
            old(self).structured(),
        ensures
            final(self).structured(),
            final(self).same_config(old(self)),
            final(self).totleaf == old(self).totleaf,
            final(self).totbranch == old(self).totbranch,
            final(self).branches() == old(self).branches(),
            final(self).elems@ == old(self).elems@,
            final(self).nodes@ == old(self).nodes@,
            forall|s: int|
                0 <= s < old(self).nodes@.len() && !(old(self).totleaf <= s < old(self).totleaf
                    + old(self).branches()) ==> #[trigger] final(self).node(s) == old(self).node(s),
            forall|s: int|
                old(self).totleaf <= s < old(self).totleaf + old(self).branches() ==> same_topology(
                    #[trigger] final(self).node(s),
                    old(self).node(s),
                ),
            forall|s: int|
                old(self).totleaf <= s < old(self).totleaf + old(self).branches()
                    ==> #[trigger] final(self).joined(s),
            old(self).branches() > 0 ==> final(self).wf(),
            old(self).spanning() ==> final(self).spanning(),
            old(self).linked() ==> final(self).linked(),
    {
        if self.totleaf == 0 {
            // no elements, so nothing to refit
            return ;
        }
        proof {
            crate::bvh::lemma_needed_branches(
                self.tree_type as int,
                self.max_size as int,
                self.max_size as int,
            );
        }
        // over a single leaf the root is built though `totbranch` may be
        // zero
        let count: usize = if self.totbranch > 0 {
            self.totbranch
        } else if self.totleaf == 1 && self.nodes[1] == 1 {
            1
        } else {
            0
        };
        let root_start = self.totleaf;
        let mut index = self.totleaf + count - 1;
        while index >= root_start
            invariant
                root_start == self.totleaf,
                1 <= root_start,
                root_start - 1 <= index < self.totleaf + count,
                count == self.branches(),
                self.structured(),
                self.same_config(old(self)),
                self.totleaf == old(self).totleaf,
                self.totbranch == old(self).totbranch,
                self.elems@ == old(self).elems@,
                self.nodes@ == old(self).nodes@,
                forall|s: int|
                    0 <= s < self.nodes@.len() && !(index < s < self.totleaf + count)
                        ==> #[trigger] self.node(s) == old(self).node(s),
                forall|s: int|
                    index < s < self.totleaf + count ==> same_topology(
                        #[trigger] self.node(s),
                        old(self).node(s),
                    ),
                forall|s: int|
                    index < s < self.totleaf + count ==> #[trigger] self.joined(s),
            decreases index,
        {
            let ghost before = *self;
            self.node_join(index);
            proof {
                assert forall|s: int|
                    index - 1 < s < self.totleaf + count implies #[trigger] self.joined(
                    s,
                ) by {
                    if s > index {
                        assert(before.joined(s));
                        assert(before.branch_shape(s, before.branches()));
                        assert(before.shape_ok(s));
                        let kids = before.children_of(s);
                        assert(self.children_of(s) == kids);
                        assert forall|a: int|
                            #![trigger lo(self.bv(s), a)]
                            #![trigger hi(self.bv(s), a)]
                            self.start_axis <= a < self.stop_axis implies lo(self.bv(s), a)
                            == crate::bvh::construct::union_lo(
                            arena_slots(self.node_array),
                            kids,
                            a,
                        ) && hi(self.bv(s), a) == crate::bvh::construct::union_hi(
                            arena_slots(self.node_array),
                            kids,
                            a,
                        ) by {
                            assert forall|p: int| 0 <= p < kids.len() implies arena_slots(
                                before.node_array,
                            )[#[trigger] kids[p] as int].bv@ == arena_slots(
                                self.node_array,
                            )[kids[p] as int].bv@ by {
                                assert(kids[p] == before.node(s).children@[p]);
                                assert(before.child_placed(s, kids[p] as int, before.branches()));
                            }
                            crate::bvh::construct::lemma_union_same(
                                arena_slots(before.node_array),
                                arena_slots(self.node_array),
                                kids,
                                a,
                            );
                            assert(lo(before.bv(s), a) == crate::bvh::construct::union_lo(
                                arena_slots(before.node_array),
                                kids,
                                a,
                            ));
                        }
                    }
                }
                assert forall|s: int|
                    index - 1 < s < self.totleaf + count implies same_topology(
                    #[trigger] self.node(s),
                    old(self).node(s),
                ) by {
                    if s > index {
                        assert(same_topology(before.node(s), old(self).node(s)));
                    } else {
                        assert(before.node(s) == old(self).node(s));
                    }
                }
                assert forall|s: int|
                    0 <= s < self.nodes@.len() && !(index - 1 < s < self.totleaf
                        + count) implies #[trigger] self.node(s) == old(self).node(s) by {
                    assert(arena_slots(before.node_array).dom().contains(s));
                    assert(self.node(s) == before.node(s));
                    assert(before.node(s) == old(self).node(s));
                }
            }
            index = index - 1;
        }
        proof {
            assert forall|s: int|
                #![trigger self.node(s)]
                #![trigger old(self).node(s)]
                0 <= s < self.nodes@.len() implies self.node(s).totnode == old(self).node(
                s,
            ).totnode && self.node(s).children@ == old(self).node(s).children@ by {
                if self.totleaf <= s < self.totleaf + count {
                    assert(same_topology(self.node(s), old(self).node(s)));
                } else {
                    assert(self.node(s) == old(self).node(s));
                }
            }
            assert(self.branches() == old(self).branches());
            self.lemma_spanning_kept(old(self));
            if old(self).linked() {
                assert forall|s: int|
                    #![trigger self.node(s)]
                    #![trigger old(self).node(s)]
                    0 <= s < self.nodes@.len() implies self.node(s).parent == old(self).node(
                    s,
                ).parent by {
                    if self.totleaf <= s < self.totleaf + count {
                        assert(same_topology(self.node(s), old(self).node(s)));
                    } else {
                        assert(self.node(s) == old(self).node(s));
                    }
                }
                self.lemma_linked_kept(old(self));
            }
            if count > 0 {
                assert forall|s: int, k: int|
                    self.totleaf <= s < self.totleaf + self.branches() && 0 <= k < self.node(
                        s,
                    ).totnode implies contains_bv(
                    self.bv(s),
                    self.bv(#[trigger] self.node(s).children@[k] as int),
                    self.start_axis as int,
                    self.stop_axis as int,
                ) by {
                    assert(self.joined(s));
                    assert(self.shape_ok(s));
                    assert(self.branch_shape(s, self.branches()));
                    assert(self.children_of(s)[k] == self.node(s).children@[k]);
                    lemma_union_contains_member(
                        self.bv(s),
                        arena_slots(self.node_array),
                        self.children_of(s),
                        self.start_axis as int,
                        self.stop_axis as int,
                        k,
                    );
                }
            }
        }
    }
}

/// Whether two nodes agree on everything but the volume.
pub open spec fn same_topology(a: crate::bvh::store::BVHNode, b: crate::bvh::store::BVHNode) -> bool {
    &&& a.children == b.children
    &&& a.parent == b.parent
    &&& a.elem_index == b.elem_index
    &&& a.totnode == b.totnode
    &&& a.main_axis == b.main_axis
    &&& a.bv@.len() == b.bv@.len()
}

} // verus!
