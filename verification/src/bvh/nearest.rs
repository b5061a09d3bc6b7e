//! The leaf nearest to a point.

use crate::bvh::kdop::{
    cal_nearest_point_squared, distance2, distance_squared, in_range, nearest_on_box, project,
    project_on, KDOP_AXES,
};
use crate::bvh::store::arena_get;
use crate::bvh::BVHTree;
use crate::vector::Vec3;
use vstd::prelude::*;

verus! {

/// The nearest point found so far.
pub struct NearestData<E: Copy> {
    pub elem_index: Option<E>,
    pub co: Option<Vec3>,
    pub normal: Option<Vec3>,
    pub dist_sq: i64,
}

impl<E: Copy> NearestData<E> {
    /// Makes a record of the values given.
    pub fn new(elem_index: Option<E>, co: Option<Vec3>, normal: Option<Vec3>, dist_sq: i64) -> (r:
        Self)
        ensures
            r.elem_index == elem_index,
            r.co == co,
            r.normal == normal,
            r.dist_sq == dist_sq,
    {
        Self { elem_index, co, normal, dist_sq }
    }

    /// Replaces what the record holds.
    pub fn set_info(
        &mut self,
        elem_index: Option<E>,
        co: Option<Vec3>,
        normal: Option<Vec3>,
        dist_sq: i64,
    )
        ensures
            final(self).elem_index == elem_index,
            final(self).co == co,
            final(self).normal == normal,
            final(self).dist_sq == dist_sq,
    {
        self.elem_index = elem_index;
        self.co = co;
        self.normal = normal;
        self.dist_sq = dist_sq;
    }

    /// The element that is nearest so far.
    pub fn get_elem_index(&self) -> (r: &Option<E>)
        ensures
            *r == self.elem_index,
    {
        &self.elem_index
    }

    /// The nearest point so far.
    pub fn get_co(&self) -> (r: &Option<Vec3>)
        ensures
            *r == self.co,
    {
        &self.co
    }

    /// The normal at the nearest point, where a callback gave one.
    pub fn get_normal(&self) -> (r: &Option<Vec3>)
        ensures
            *r == self.normal,
    {
        &self.normal
    }

    /// The squared distance to the nearest point so far.
    pub fn get_dist_sq(&self) -> (r: i64)
        ensures
            r == self.dist_sq,
    {
        self.dist_sq
    }
}

/// Coordinate `i` of `p`: x, y, z for 0, 1, 2.
pub open spec fn component(p: Vec3, i: int) -> int {
    if i == 0 {
        p.x as int
    } else if i == 1 {
        p.y as int
    } else {
        p.z as int
    }
}

/// The point of the box of `bv` nearest to `co`, as a vector.
pub open spec fn box_point(bv: Seq<i64>, co: Vec3) -> Vec3 {
    Vec3 {
        x: nearest_on_box(bv, co).0 as i64,
        y: nearest_on_box(bv, co).1 as i64,
        z: nearest_on_box(bv, co).2 as i64,
    }
}

/// The squared distance from `co` to the box of `bv`.
pub open spec fn box_distance(bv: Seq<i64>, co: Vec3) -> int {
    distance2(co, box_point(bv, co))
}

/// Whether `f` can be called on every element and record for the point
/// `co`.
pub open spec fn refines<E: Copy, F: Fn(E, &Vec3, &NearestData<E>) -> NearestData<E>>(
    f: F,
    co: Vec3,
) -> bool {
    forall|e: E, cur: NearestData<E>| call_requires(f, (e, &co, &cur))
}

/// Whether `f` returns, for every element and record, what `answer` gives
/// for them, for the point `co`.
pub open spec fn follows<E: Copy, F: Fn(E, &Vec3, &NearestData<E>) -> NearestData<E>>(
    f: F,
    co: Vec3,
    answer: spec_fn(E, NearestData<E>) -> NearestData<E>,
) -> bool {
    forall|e: E, cur: NearestData<E>, r: NearestData<E>|
        call_ensures(f, (e, &co, &cur), r) ==> r == answer(e, cur)
}

/// Whether `record` is an answer of `f` for the point `co`.
pub open spec fn given<E: Copy, F: Fn(E, &Vec3, &NearestData<E>) -> NearestData<E>>(
    f: F,
    co: Vec3,
    record: NearestData<E>,
) -> bool {
    exists|e: E, cur: NearestData<E>| #[trigger] call_ensures(f, (e, &co, &cur), record)
}

impl<E: Copy> BVHTree<E> {
    /// What a leaf does to the record where no callback is given: the
    /// leaf's element, the point of its box nearest to `co`, and the
    /// squared distance to that point.
    pub open spec fn leaf_box(&self, co: Vec3) -> spec_fn(int, NearestData<E>) -> NearestData<E> {
        |s: int, cur: NearestData<E>|
            NearestData {
                elem_index: Some(self.elem_at(s)),
                co: Some(box_point(self.bv(s), co)),
                normal: None,
                dist_sq: box_distance(self.bv(s), co) as i64,
            }
    }

    /// What a leaf does to the record where a callback is given that
    /// answers as `answer` does: the answer for the leaf's element and the
    /// record.
    pub open spec fn leaf_with(&self, answer: spec_fn(E, NearestData<E>) -> NearestData<E>) -> spec_fn(
        int,
        NearestData<E>,
    ) -> NearestData<E> {
        |s: int, cur: NearestData<E>| answer(self.elem_at(s), cur)
    }

    /// Whether the children of the inner node in slot `s` are visited from
    /// the first to the last: where `co` lies, along the node's split
    /// axis, no further than the upper end of the first child.
    pub open spec fn forward(&self, s: int, co: Vec3) -> bool {
        component(co, self.node(s).main_axis as int) <= self.bv(
            self.node(s).children@[0] as int,
        )[self.node(s).main_axis * 2 + 1]
    }

    /// The child entry of the inner node in slot `s` that is visited as
    /// number `i`.
    pub open spec fn visit(&self, s: int, co: Vec3, i: int) -> int {
        if self.forward(s, co) {
            i
        } else {
            self.node(s).totnode - 1 - i
        }
    }

    /// The record after the search went down from the node in slot `s`
    /// with the record `best`: a leaf changes the record by `leaf`; an
    /// inner node hands it through its children in visiting order, but
    /// leaves out each child whose box is no nearer to `co` than the
    /// record's distance.
    pub open spec fn seek(
        &self,
        s: int,
        co: Vec3,
        leaf: spec_fn(int, NearestData<E>) -> NearestData<E>,
        best: NearestData<E>,
    ) -> NearestData<E>
        decreases self.rank(s), 1nat, 0nat,
    {
        if self.node(s).totnode == 0 {
            leaf(s, best)
        } else {
            self.seek_children(s, co, leaf, self.node(s).totnode as nat, best)
        }
    }

    /// The record after the first `k` children, in visiting order, of the
    /// inner node in slot `s`.
    pub open spec fn seek_children(
        &self,
        s: int,
        co: Vec3,
        leaf: spec_fn(int, NearestData<E>) -> NearestData<E>,
        k: nat,
        best: NearestData<E>,
    ) -> NearestData<E>
        decreases self.rank(s), 0nat, k,
    {
        if k == 0 {
            best
        } else {
            let before = self.seek_children(s, co, leaf, (k - 1) as nat, best);
            let c = self.node(s).children@[self.visit(s, co, k - 1)] as int;
            if box_distance(self.bv(c), co) >= before.dist_sq {
                before
            } else if self.rank(c) < self.rank(s) {
                self.seek(c, co, leaf, before)
            } else {
                before
            }
        }
    }

    /// The answer of `find_nearest` for the point `co` within the squared
    /// distance `dist_sq`: nothing where the tree is not balanced or the
    /// root's box is no nearer than `dist_sq`, and else the record that the
    /// search down from the root leaves, if it names an element.
    pub open spec fn nearest(
        &self,
        co: Vec3,
        dist_sq: i64,
        leaf: spec_fn(int, NearestData<E>) -> NearestData<E>,
    ) -> Option<NearestData<E>> {
        if !self.balanced() || box_distance(self.bv(self.root()), co) >= dist_sq {
            None
        } else {
            let found = self.seek(
                self.root(),
                co,
                leaf,
                NearestData { elem_index: None, co: None, normal: None, dist_sq },
            );
            if found.elem_index.is_some() {
                Some(found)
            } else {
                None
            }
        }
    }

    /// Measures the squared distance from `co` to the box of the node in
    /// slot `slot`.
    fn child_distance(&self, slot: usize, co: &Vec3) -> (r: i64)
        requires
            self.structured(),
            self.in_tree(slot as int),
            in_range(*co),
        ensures
            r == box_distance(self.bv(slot as int), *co),
    {
        proof {
            self.lemma_volume_length(slot as int);
            assert(self.shape_ok(slot as int));
            assert(self.totleaf > 0);
        }
        let node = arena_get(&self.node_array, slot).unwrap();
        let nearest = cal_nearest_point_squared(&node.bv, co);
        distance_squared(co, &nearest)
    }

    /// Searches down from the node behind `node_index` for the leaf
    /// nearest to `co`, starting from the record in `r_nearest_data`.
    fn find_nearest_dfs<F: Fn(E, &Vec3, &NearestData<E>) -> NearestData<E>>(
        &self,
        node_index: usize,
        co: &Vec3,
        proj: &[i64; 13],
        callback: &Option<F>,
        r_nearest_data: &mut NearestData<E>,
    )
        requires
            self.structured(),
            self.in_tree(node_index as int),
            in_range(*co),
            forall|i: int| 0 <= i < 3 ==> #[trigger] proj@[i] == component(*co, i),
            callback.is_some() ==> refines(callback.unwrap(), *co),
        ensures
            callback.is_none() ==> *final(r_nearest_data) == self.seek(
                node_index as int,
                *co,
                self.leaf_box(*co),
                *old(r_nearest_data),
            ),
            forall|answer: spec_fn(E, NearestData<E>) -> NearestData<E>|
                callback.is_some() && #[trigger] follows(callback.unwrap(), *co, answer)
                    ==> *final(r_nearest_data) == self.seek(
                    node_index as int,
                    *co,
                    self.leaf_with(answer),
                    *old(r_nearest_data),
                ),
            callback.is_some() ==> *final(r_nearest_data) == *old(r_nearest_data) || given(
                callback.unwrap(),
                *co,
                *final(r_nearest_data),
            ),
        decreases self.rank(node_index as int),
    {
        let ghost s = node_index as int;
        proof {
            self.lemma_volume_length(s);
            assert(self.shape_ok(s));
        }
        let node = arena_get(&self.node_array, node_index).unwrap();
        let proj_v3 = Vec3 { x: proj[0], y: proj[1], z: proj[2] };
        proof {
            assert(proj@[0] == component(*co, 0));
            assert(proj@[1] == component(*co, 1));
            assert(proj@[2] == component(*co, 2));
            assert(proj_v3 == *co);
        }
        if node.totnode == 0 {
            proof {
                self.lemma_leaf(s);
            }
            match callback {
                Some(callback) => {
                    let updated = callback(
                        self.elems[node.elem_index.unwrap()],
                        co,
                        &*r_nearest_data,
                    );
                    *r_nearest_data = updated;
                },
                None => {
                    let nearest = cal_nearest_point_squared(&node.bv, &proj_v3);
                    let dist_sq = distance_squared(&proj_v3, &nearest);
                    r_nearest_data.set_info(
                        Some(self.elems[node.elem_index.unwrap()]),
                        Some(nearest),
                        None,
                        dist_sq,
                    );
                },
            }
        } else {
            proof {
                self.lemma_branch(s);
                self.lemma_child(s, 0);
                self.lemma_volume_length(node.children@[0] as int);
            }
            // the child nearest along the split axis is searched first
            let first_child = arena_get(&self.node_array, node.children[0]).unwrap();
            let forward = proj[node.main_axis as usize] <= first_child.bv[node.main_axis as usize
                * 2 + 1];
            proof {
                assert(proj@[node.main_axis as int] == component(*co, node.main_axis as int));
                assert(forward == self.forward(s, *co));
            }
            let mut i: u8 = 0;
            while i < node.totnode
                invariant
                    i <= node.totnode,
                    self.structured(),
                    self.in_tree(s),
                    self.totleaf <= s < self.totleaf + self.branches(),
                    s == node_index,
                    in_range(*co),
                    forall|q: int| 0 <= q < 3 ==> #[trigger] proj@[q] == component(*co, q),
                    callback.is_some() ==> refines(callback.unwrap(), *co),
                    *node == self.node(s),
                    node.children@.len() == self.tree_type,
                    1 <= node.totnode <= self.tree_type,
                    forward == self.forward(s, *co),
                    callback.is_none() ==> *r_nearest_data == self.seek_children(
                        s,
                        *co,
                        self.leaf_box(*co),
                        i as nat,
                        *old(r_nearest_data),
                    ),
                    forall|answer: spec_fn(E, NearestData<E>) -> NearestData<E>|
                        callback.is_some() && #[trigger] follows(callback.unwrap(), *co, answer)
                            ==> *r_nearest_data == self.seek_children(
                            s,
                            *co,
                            self.leaf_with(answer),
                            i as nat,
                            *old(r_nearest_data),
                        ),
                    callback.is_some() ==> *r_nearest_data == *old(r_nearest_data) || given(
                        callback.unwrap(),
                        *co,
                        *r_nearest_data,
                    ),
                decreases node.totnode - i,
            {
                let at: u8 = if forward {
                    i
                } else {
                    node.totnode - i - 1
                };
                proof {
                    assert(at == self.visit(s, *co, i as int));
                    self.lemma_child(s, at as int);
                }
                let child_index = node.children[at as usize];
                let node_child_dist_sq = self.child_distance(child_index, co);
                let ghost before = *r_nearest_data;
                if node_child_dist_sq < r_nearest_data.get_dist_sq() {
                    self.find_nearest_dfs(child_index, co, proj, callback, r_nearest_data);
                }
                proof {
                    assert forall|answer: spec_fn(E, NearestData<E>) -> NearestData<E>|
                        callback.is_some() && #[trigger] follows(
                            callback.unwrap(),
                            *co,
                            answer,
                        ) implies *r_nearest_data == self.seek_children(
                        s,
                        *co,
                        self.leaf_with(answer),
                        (i + 1) as nat,
                        *old(r_nearest_data),
                    ) by {
                        assert(before == self.seek_children(
                            s,
                            *co,
                            self.leaf_with(answer),
                            i as nat,
                            *old(r_nearest_data),
                        ));
                        if node_child_dist_sq < before.dist_sq {
                            assert(*r_nearest_data == self.seek(
                                child_index as int,
                                *co,
                                self.leaf_with(answer),
                                before,
                            ));
                        }
                    }
                }
                i = i + 1;
            }
        }
    }

    /// Starts the search at the root, unless the root's box is no nearer
    /// to `co` than `dist_sq`.
    fn find_nearest_dfs_begin<F: Fn(E, &Vec3, &NearestData<E>) -> NearestData<E>>(
        &self,
        node_index: usize,
        dist_sq: i64,
        co: &Vec3,
        proj: &[i64; 13],
        callback: &Option<F>,
    ) -> (r: Option<NearestData<E>>)
        requires
            self.structured(),
            self.balanced(),
            node_index == self.root(),
            in_range(*co),
            forall|i: int| 0 <= i < 3 ==> #[trigger] proj@[i] == component(*co, i),
            callback.is_some() ==> refines(callback.unwrap(), *co),
        ensures
            callback.is_none() ==> r == self.nearest(*co, dist_sq, self.leaf_box(*co)),
            forall|answer: spec_fn(E, NearestData<E>) -> NearestData<E>|
                callback.is_some() && #[trigger] follows(callback.unwrap(), *co, answer) ==> r
                    == self.nearest(*co, dist_sq, self.leaf_with(answer)),
            r.is_some() ==> r.unwrap().elem_index.is_some(),
            callback.is_some() && r.is_some() ==> given(callback.unwrap(), *co, r.unwrap()),
    {
        let root_distance = self.child_distance(node_index, co);
        if root_distance >= dist_sq {
            None
        } else {
            let mut nearest_data = NearestData::new(None, None, None, dist_sq);
            self.find_nearest_dfs(node_index, co, proj, callback, &mut nearest_data);
            if nearest_data.get_elem_index().is_some() {
                Some(nearest_data)
            } else {
                None
            }
        }
    }

    /// Finds the leaf nearest to `co` among those nearer than the squared
    /// distance `dist_sq`.
    ///
    /// Without a callback a leaf is as near as its box. A callback is
    /// given the element of each leaf that may be nearer, `co` and the
    /// record so far, and returns the record to go on with.
    pub fn find_nearest<F: Fn(E, &Vec3, &NearestData<E>) -> NearestData<E>>(
        &self,
        co: Vec3,
        dist_sq: i64,
        callback: &Option<F>,
    ) -> (r: Option<NearestData<E>>)
        requires
            self.structured(),
            in_range(co),
            callback.is_some() ==> refines(callback.unwrap(), co),
        ensures
            callback.is_none() ==> r == self.nearest(co, dist_sq, self.leaf_box(co)),
            forall|answer: spec_fn(E, NearestData<E>) -> NearestData<E>|
                callback.is_some() && #[trigger] follows(callback.unwrap(), co, answer) ==> r
                    == self.nearest(co, dist_sq, self.leaf_with(answer)),
            r.is_some() ==> r.unwrap().elem_index.is_some(),
            callback.is_some() && r.is_some() ==> given(callback.unwrap(), co, r.unwrap()),
    {
        proof {
            crate::bvh::lemma_needed_branches(
                self.tree_type as int,
                self.max_size as int,
                self.max_size as int,
            );
        }
        let root_index = self.nodes[self.totleaf];
        if arena_get(&self.node_array, root_index).is_none() {
            return None;
        }
        let mut proj: [i64; 13] = [0; 13];
        let mut axis_iter: u8 = self.start_axis;
        proof {
            assert(self.branches() > 0);
            assert(self.stop_axis >= 3);
        }
        while axis_iter < self.stop_axis
            invariant
                self.start_axis <= axis_iter <= self.stop_axis <= KDOP_AXES,
                in_range(co),
                forall|a: int|
                    self.start_axis <= a < axis_iter ==> #[trigger] proj@[a] == project(co, a),
            decreases self.stop_axis - axis_iter,
        {
            proj[axis_iter as usize] = project_on(&co, axis_iter as usize);
            axis_iter = axis_iter + 1;
        }
        if self.start_axis > 0 {
            // the search measures along the cardinal axes, also where
            // they are not among the active ones
            proj[0] = co.x;
            proj[1] = co.y;
            proj[2] = co.z;
        }
        proof {
            if self.start_axis == 0 {
                assert(proj@[0] == project(co, 0));
                assert(proj@[1] == project(co, 1));
                assert(proj@[2] == project(co, 2));
            }
        }
        self.find_nearest_dfs_begin(root_index, dist_sq, &co, &proj, callback)
    }
}

impl<E: Copy> BVHTree<E> {
    /// Finds the leaf whose box is nearest to `co` among those nearer than
    /// the squared distance `dist_sq`.
    pub fn find_nearest_no_callback(&self, co: Vec3, dist_sq: i64) -> (r: Option<NearestData<E>>)
        requires
            self.structured(),
            in_range(co),
        ensures
            r == self.nearest(co, dist_sq, self.leaf_box(co)),
    {
        // a callback that is never given, for its type alone
        let unused = |_elem: E, _co: &Vec3, cur: &NearestData<E>| -> NearestData<E> {
            NearestData::new(cur.elem_index, cur.co, cur.normal, cur.dist_sq)
        };
        let callback = crate::bvh::absent(unused);
        self.find_nearest(co, dist_sq, &callback)
    }
}

} // verus!
