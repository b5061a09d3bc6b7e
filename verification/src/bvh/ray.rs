//! The leaf that a ray hits first.

use crate::bvh::kdop::{bounded, in_range, BV_MAX, COORD_MAX};
use crate::bvh::nearest::component;
use crate::bvh::ratio::Ratio;
use crate::bvh::absent;
use crate::bvh::store::arena_get;
use crate::bvh::BVHTree;
use crate::vector::Vec3;
use vstd::prelude::*;

verus! {

/// What is hit: the element, and the point of the hit.
#[derive(Debug, Clone, Copy)]
pub struct RayHitOptionalData<E: Copy> {
    pub elem_index: E,
    pub co: Vec3,
}

impl<E: Copy> RayHitOptionalData<E> {
    /// Records the element hit and the point of the hit.
    pub fn new(elem_index: E, co: Vec3) -> (r: Self)
        ensures
            r.elem_index == elem_index,
            r.co == co,
    {
        Self { elem_index, co }
    }
}

/// A hit of a ray: how far along the ray, in units of its direction, and
/// what the caller knows of it.
#[derive(Debug, Clone, Copy)]
pub struct RayHitData<E: Copy, ExtraData: Copy> {
    pub data: Option<RayHitOptionalData<E>>,
    pub normal: Option<Vec3>,
    pub dist: Ratio,
    pub extra_data: Option<ExtraData>,
}

impl<E: Copy, ExtraData: Copy> RayHitData<E, ExtraData> {
    /// Makes a hit at `dist` of which nothing more is known.
    pub fn new(dist: Ratio) -> (r: Self)
        ensures
            r.data.is_none(),
            r.normal.is_none(),
            r.dist == dist,
            r.extra_data.is_none(),
    {
        Self { data: None, normal: None, dist, extra_data: None }
    }

    /// Records what is hit.
    pub fn set_data(&mut self, data: RayHitOptionalData<E>)
        ensures
            final(self).data == Some(data),
            final(self).normal == old(self).normal,
            final(self).dist == old(self).dist,
            final(self).extra_data == old(self).extra_data,
    {
        self.data = Some(data);
    }

    /// Records what else the caller knows of the hit.
    pub fn set_extra_data(&mut self, extra_data: ExtraData)
        ensures
            final(self).extra_data == Some(extra_data),
            final(self).data == old(self).data,
            final(self).normal == old(self).normal,
            final(self).dist == old(self).dist,
    {
        self.extra_data = Some(extra_data);
    }
}

/// The entry of a bounding volume that bounds cardinal axis `i` on the
/// side where a ray along `dir` enters: the upper end where the ray runs
/// down the axis, else the lower end.
pub open spec fn near_index(dir: Vec3, i: int) -> int {
    if component(dir, i) < 0 {
        2 * i + 1
    } else {
        2 * i
    }
}

/// The entry on the side where the ray leaves.
pub open spec fn far_index(dir: Vec3, i: int) -> int {
    if component(dir, i) < 0 {
        2 * i
    } else {
        2 * i + 1
    }
}

/// How far along the ray from `co` along `dir` the plane lies that bounds
/// `bv` at entry `index`, on cardinal axis `i`. Along an axis that the
/// ray is parallel to, this is infinite or zero.
pub open spec fn plane_distance(bv: Seq<i64>, co: Vec3, dir: Vec3, i: int, index: int) -> Ratio {
    Ratio { num: (bv[index] - component(co, i)) as i64, den: component(dir, i) as i64 }
}

/// How far along the ray it enters the slab of cardinal axis `i`.
pub open spec fn enter(bv: Seq<i64>, co: Vec3, dir: Vec3, i: int) -> Ratio {
    plane_distance(bv, co, dir, i, near_index(dir, i))
}

/// How far along the ray it leaves the slab of cardinal axis `i`.
pub open spec fn leave(bv: Seq<i64>, co: Vec3, dir: Vec3, i: int) -> Ratio {
    plane_distance(bv, co, dir, i, far_index(dir, i))
}

/// Where the ray from `co` along `dir` enters the box of `bv`, if it does
/// so no further than `dist`: the ray misses where it enters one slab
/// after it left another, where it leaves a slab behind its origin, or
/// where it enters a slab further than `dist`.
pub open spec fn spec_ray_hit(bv: Seq<i64>, co: Vec3, dir: Vec3, dist: Ratio) -> Option<Ratio> {
    let t1x = enter(bv, co, dir, 0);
    let t2x = leave(bv, co, dir, 0);
    let t1y = enter(bv, co, dir, 1);
    let t2y = leave(bv, co, dir, 1);
    let t1z = enter(bv, co, dir, 2);
    let t2z = leave(bv, co, dir, 2);
    if (t2y.spec_less(t1x) || t2x.spec_less(t1y) || t2z.spec_less(t1x) || t2x.spec_less(t1z)
        || t2z.spec_less(t1y) || t2y.spec_less(t1z)) || (t2x.spec_less(Ratio::spec_zero())
        || t2y.spec_less(Ratio::spec_zero()) || t2z.spec_less(Ratio::spec_zero())) || (
    dist.spec_less(t1x) || dist.spec_less(t1y) || dist.spec_less(t1z)) {
        None
    } else {
        Some(t1x.spec_larger(t1y).spec_larger(t1z))
    }
}

/// Whether the ratio is one of a difference within twice `BV_MAX` to a
/// direction within `COORD_MAX`.
pub open spec fn near_enough(r: Ratio) -> bool {
    &&& -2 * BV_MAX <= r.num <= 2 * BV_MAX
    &&& -COORD_MAX <= r.den <= COORD_MAX
}

/// A ray, with what is worked out once for the whole cast.
pub struct RayCastData {
    pub co: Vec3,
    pub dir: Vec3,
    /// The direction along each of the three cardinal axes.
    pub ray_dot_axis: [i64; 13],
    /// For each cardinal axis, the entries of a bounding volume on the
    /// near and on the far side.
    pub index: [usize; 6],
}

impl RayCastData {
    /// Whether the record is that of the ray from `co` along `dir`.
    pub open spec fn wf(&self) -> bool {
        &&& in_range(self.co)
        &&& in_range(self.dir)
        &&& forall|i: int|
            0 <= i < 3 ==> #[trigger] self.ray_dot_axis@[i] == component(self.dir, i)
        &&& forall|i: int| 0 <= i < 3 ==> #[trigger] self.index@[2 * i] == near_index(self.dir, i)
        &&& forall|i: int|
            0 <= i < 3 ==> #[trigger] self.index@[2 * i + 1] == far_index(self.dir, i)
    }

    /// Works out the record of the ray from `co` along `dir`.
    pub fn new(co: Vec3, dir: Vec3) -> (r: Self)
        requires
            in_range(co),
            in_range(dir),
        ensures
            r.wf(),
            r.co == co,
            r.dir == dir,
    {
        let mut ray_dot_axis: [i64; 13] = [0; 13];
        let mut index: [usize; 6] = [0; 6];
        ray_dot_axis[0] = dir.x;
        ray_dot_axis[1] = dir.y;
        ray_dot_axis[2] = dir.z;
        let mut i: usize = 0;
        while i < 3
            invariant
                i <= 3,
                ray_dot_axis@[0] == dir.x,
                ray_dot_axis@[1] == dir.y,
                ray_dot_axis@[2] == dir.z,
                forall|q: int| 0 <= q < i ==> #[trigger] index@[2 * q] == near_index(dir, q),
                forall|q: int| 0 <= q < i ==> #[trigger] index@[2 * q + 1] == far_index(dir, q),
            decreases 3 - i,
        {
            let ghost before = index@;
            if ray_dot_axis[i] < 0 {
                index[2 * i] = 1;
            } else {
                index[2 * i] = 0;
            }
            index[2 * i + 1] = 1 - index[2 * i];
            index[2 * i] += 2 * i;
            index[2 * i + 1] += 2 * i;
            proof {
                assert forall|q: int| 0 <= q < i + 1 implies #[trigger] index@[2 * q]
                    == near_index(dir, q) by {
                    if q < i {
                        assert(index@[2 * q] == before[2 * q]);
                    }
                }
                assert forall|q: int| 0 <= q < i + 1 implies #[trigger] index@[2 * q + 1]
                    == far_index(dir, q) by {
                    if q < i {
                        assert(index@[2 * q + 1] == before[2 * q + 1]);
                    }
                }
            }
            i = i + 1;
        }
        Self { co, dir, ray_dot_axis, index }
    }
}

/// Tests whether the ray hits the box of `bv` no further than `dist`, and
/// returns how far along the ray it enters.
pub fn ray_hit(bv: &Vec<i64>, data: &RayCastData, dist: Ratio) -> (r: Option<Ratio>)
    requires
        bv@.len() >= 6,
        bounded(bv@),
        data.wf(),
    ensures
        r == spec_ray_hit(bv@, data.co, data.dir, dist),
        r.is_some() ==> near_enough(r.unwrap()),
{
    proof {
        assert(data.index@[2 * 0int] == near_index(data.dir, 0));
        assert(data.index@[2 * 0int + 1] == far_index(data.dir, 0));
        assert(data.index@[2 * 1int] == near_index(data.dir, 1));
        assert(data.index@[2 * 1int + 1] == far_index(data.dir, 1));
        assert(data.index@[2 * 2int] == near_index(data.dir, 2));
        assert(data.index@[2 * 2int + 1] == far_index(data.dir, 2));
        assert(data.ray_dot_axis@[0] == component(data.dir, 0));
        assert(data.ray_dot_axis@[1] == component(data.dir, 1));
        assert(data.ray_dot_axis@[2] == component(data.dir, 2));
    }
    let t1x = Ratio::new(bv[data.index[0]] - data.co.x, data.ray_dot_axis[0]);
    let t2x = Ratio::new(bv[data.index[1]] - data.co.x, data.ray_dot_axis[0]);
    let t1y = Ratio::new(bv[data.index[2]] - data.co.y, data.ray_dot_axis[1]);
    let t2y = Ratio::new(bv[data.index[3]] - data.co.y, data.ray_dot_axis[1]);
    let t1z = Ratio::new(bv[data.index[4]] - data.co.z, data.ray_dot_axis[2]);
    let t2z = Ratio::new(bv[data.index[5]] - data.co.z, data.ray_dot_axis[2]);
    proof {
        assert(t1x == enter(bv@, data.co, data.dir, 0));
        assert(t2x == leave(bv@, data.co, data.dir, 0));
        assert(t1y == enter(bv@, data.co, data.dir, 1));
        assert(t2y == leave(bv@, data.co, data.dir, 1));
        assert(t1z == enter(bv@, data.co, data.dir, 2));
        assert(t2z == leave(bv@, data.co, data.dir, 2));
    }
    let zero = Ratio::zero();
    if (t2y.less(&t1x) || t2x.less(&t1y) || t2z.less(&t1x) || t2x.less(&t1z) || t2z.less(&t1y)
        || t2y.less(&t1z)) || (t2x.less(&zero) || t2y.less(&zero) || t2z.less(&zero)) || (dist.less(
        &t1x,
    ) || dist.less(&t1y) || dist.less(&t1z)) {
        None
    } else {
        Some(t1x.larger(t1y).larger(t1z))
    }
}

/// The point that the ray from `co` along `dir` reaches at `dist`, each
/// coordinate rounded down.
pub open spec fn hit_point(co: Vec3, dir: Vec3, dist: Ratio) -> Vec3 {
    Vec3 {
        x: (co.x + dist.spec_scale(dir.x)) as i64,
        y: (co.y + dist.spec_scale(dir.y)) as i64,
        z: (co.z + dist.spec_scale(dir.z)) as i64,
    }
}

/// A direction component times a ratio of a hit fits the scalar, with room
/// for a coordinate.
pub proof fn lemma_scale_fits(dist: Ratio, by: i64)
    requires
        near_enough(dist),
        -COORD_MAX <= by <= COORD_MAX,
    ensures
        -0x100_0000_0000_0000 <= dist.spec_scale(by) <= 0x100_0000_0000_0000,
{
    let top = dist.top();
    let bottom = dist.bottom();
    if bottom != 0 {
        let p = by * top;
        assert(-0x100_0000_0000_0000 <= p <= 0x100_0000_0000_0000) by (nonlinear_arith)
            requires
                p == by * top,
                -0x400_0000 <= by <= 0x400_0000,
                -0x4000_0000 <= top <= 0x4000_0000,
        ;
        assert(-0x100_0000_0000_0000 <= p / bottom <= 0x100_0000_0000_0000) by (nonlinear_arith)
            requires
                -0x100_0000_0000_0000 <= p <= 0x100_0000_0000_0000,
                bottom >= 1,
        ;
    }
}

/// Computes the point that the ray reaches at `dist`.
fn ray_point(co: &Vec3, dir: &Vec3, dist: &Ratio) -> (r: Vec3)
    requires
        in_range(*co),
        in_range(*dir),
        near_enough(*dist),
    ensures
        r == hit_point(*co, *dir, *dist),
{
    proof {
        lemma_scale_fits(*dist, dir.x);
        lemma_scale_fits(*dist, dir.y);
        lemma_scale_fits(*dist, dir.z);
    }
    Vec3 {
        x: co.x + dist.scale(dir.x),
        y: co.y + dist.scale(dir.y),
        z: co.z + dist.scale(dir.z),
    }
}

/// Whether `f` can be called on every element.
pub open spec fn tests<E: Copy, X: Copy, F: Fn(E) -> Option<RayHitData<E, X>>>(f: F) -> bool {
    forall|e: E| call_requires(f, (e,))
}

/// Whether `f` returns, for every element, what `answer` gives for it.
pub open spec fn computes<E: Copy, X: Copy, F: Fn(E) -> Option<RayHitData<E, X>>>(
    f: F,
    answer: spec_fn(E) -> Option<RayHitData<E, X>>,
) -> bool {
    forall|e: E, r: Option<RayHitData<E, X>>| call_ensures(f, (e,), r) ==> r == answer(e)
}

/// Whether `hit` is an answer of `f`.
pub open spec fn answered<E: Copy, X: Copy, F: Fn(E) -> Option<RayHitData<E, X>>>(
    f: F,
    hit: RayHitData<E, X>,
) -> bool {
    exists|e: E| #[trigger] call_ensures(f, (e,), Some(hit))
}

impl<E: Copy> BVHTree<E> {
    /// What a leaf does to the hit where no callback is given: the ray
    /// hits the leaf's box at `dist`.
    pub open spec fn leaf_hit<X: Copy>(&self, co: Vec3, dir: Vec3) -> spec_fn(
        int,
        Ratio,
        RayHitData<E, X>,
    ) -> RayHitData<E, X> {
        |s: int, dist: Ratio, best: RayHitData<E, X>|
            RayHitData {
                data: Some(
                    RayHitOptionalData { elem_index: self.elem_at(s), co: hit_point(co, dir, dist) },
                ),
                normal: best.normal,
                dist,
                extra_data: best.extra_data,
            }
    }

    /// What a leaf does to the hit where a callback is given that answers
    /// as `answer` does: the answer for the leaf's element, if that is a
    /// hit and nearer.
    pub open spec fn leaf_hit_with<X: Copy>(
        &self,
        answer: spec_fn(E) -> Option<RayHitData<E, X>>,
    ) -> spec_fn(int, Ratio, RayHitData<E, X>) -> RayHitData<E, X> {
        |s: int, dist: Ratio, best: RayHitData<E, X>|
            match answer(self.elem_at(s)) {
                Some(hit) => if hit.dist.spec_less(best.dist) {
                    hit
                } else {
                    best
                },
                None => best,
            }
    }

    /// The child entry of the inner node in slot `s` that a ray along
    /// `dir` visits as number `i`: from the first child on where the ray
    /// runs up the node's split axis, else from the last.
    pub open spec fn ray_visit(&self, s: int, dir: Vec3, i: int) -> int {
        if component(dir, self.node(s).main_axis as int) > 0 {
            i
        } else {
            self.node(s).totnode - 1 - i
        }
    }

    /// The hit after the cast went down from the node in slot `s` with the
    /// hit `best`: nothing changes unless the ray enters the node's box
    /// nearer than `best`; then a leaf changes the hit by `leaf`, and an
    /// inner node hands it through its children in visiting order.
    pub open spec fn cast<X: Copy>(
        &self,
        s: int,
        co: Vec3,
        dir: Vec3,
        leaf: spec_fn(int, Ratio, RayHitData<E, X>) -> RayHitData<E, X>,
        best: RayHitData<E, X>,
    ) -> RayHitData<E, X>
        decreases self.rank(s), 1nat, 0nat,
    {
        match spec_ray_hit(self.bv(s), co, dir, best.dist) {
            None => best,
            Some(dist) => if !dist.spec_less(best.dist) {
                best
            } else if self.node(s).totnode == 0 {
                leaf(s, dist, best)
            } else {
                self.cast_children(s, co, dir, leaf, self.node(s).totnode as nat, best)
            },
        }
    }

    /// The hit after the first `k` children, in visiting order, of the
    /// inner node in slot `s`.
    pub open spec fn cast_children<X: Copy>(
        &self,
        s: int,
        co: Vec3,
        dir: Vec3,
        leaf: spec_fn(int, Ratio, RayHitData<E, X>) -> RayHitData<E, X>,
        k: nat,
        best: RayHitData<E, X>,
    ) -> RayHitData<E, X>
        decreases self.rank(s), 0nat, k,
    {
        if k == 0 {
            best
        } else {
            let before = self.cast_children(s, co, dir, leaf, (k - 1) as nat, best);
            let c = self.node(s).children@[self.ray_visit(s, dir, k - 1)] as int;
            if self.rank(c) < self.rank(s) {
                self.cast(c, co, dir, leaf, before)
            } else {
                before
            }
        }
    }

    /// The answer of a ray cast from `co` along `dir`: nothing in a tree
    /// without leaves, and else the hit that the cast down from the root
    /// leaves, starting with an infinite distance, if it names what was
    /// hit.
    pub open spec fn ray_answer<X: Copy>(
        &self,
        co: Vec3,
        dir: Vec3,
        leaf: spec_fn(int, Ratio, RayHitData<E, X>) -> RayHitData<E, X>,
    ) -> Option<RayHitData<E, X>> {
        if self.totleaf == 0 {
            None
        } else {
            let found = self.cast(
                self.root(),
                co,
                dir,
                leaf,
                RayHitData {
                    data: None,
                    normal: None,
                    dist: Ratio::spec_infinite(),
                    extra_data: None,
                },
            );
            if found.data.is_some() {
                Some(found)
            } else {
                None
            }
        }
    }

    /// Casts the ray down from the node behind `node_index`, starting from
    /// the hit in `r_hit_data`.
    fn ray_cast_traverse<X: Copy, F: Fn(E) -> Option<RayHitData<E, X>>>(
        &self,
        node_index: usize,
        data: &RayCastData,
        callback: &Option<F>,
        r_hit_data: &mut RayHitData<E, X>,
    )
        requires
            self.structured(),
            self.in_tree(node_index as int),
            data.wf(),
            callback.is_some() ==> tests(callback.unwrap()),
        ensures
            callback.is_none() ==> *final(r_hit_data) == self.cast(
                node_index as int,
                data.co,
                data.dir,
                self.leaf_hit(data.co, data.dir),
                *old(r_hit_data),
            ),
            forall|answer: spec_fn(E) -> Option<RayHitData<E, X>>|
                callback.is_some() && #[trigger] computes(callback.unwrap(), answer)
                    ==> *final(r_hit_data) == self.cast(
                    node_index as int,
                    data.co,
                    data.dir,
                    self.leaf_hit_with(answer),
                    *old(r_hit_data),
                ),
            callback.is_some() ==> *final(r_hit_data) == *old(r_hit_data) || answered(
                callback.unwrap(),
                *final(r_hit_data),
            ),
        decreases self.rank(node_index as int),
    {
        let ghost s = node_index as int;
        proof {
            self.lemma_volume_length(s);
            assert(self.shape_ok(s));
            assert(self.totleaf > 0);
        }
        let node = arena_get(&self.node_array, node_index).unwrap();
        match ray_hit(&node.bv, data, r_hit_data.dist) {
            None => {},
            Some(dist) => {
                if !dist.less(&r_hit_data.dist) {
                    return ;
                }
                if node.totnode == 0 {
                    proof {
                        self.lemma_leaf(s);
                    }
                    let elem = self.elems[node.elem_index.unwrap()];
                    match callback {
                        Some(callback) => {
                            match callback(elem) {
                                Some(hit_data) => {
                                    // only a nearer hit replaces the one
                                    // recorded
                                    if hit_data.dist.less(&r_hit_data.dist) {
                                        *r_hit_data = hit_data;
                                    }
                                },
                                None => {},
                            }
                        },
                        None => {
                            let optional_data = RayHitOptionalData::new(
                                elem,
                                ray_point(&data.co, &data.dir, &dist),
                            );
                            r_hit_data.set_data(optional_data);
                            r_hit_data.dist = dist;
                        },
                    }
                } else {
                    proof {
                        self.lemma_branch(s);
                        assert(data.ray_dot_axis@[node.main_axis as int] == component(
                            data.dir,
                            node.main_axis as int,
                        ));
                    }
                    let forward = data.ray_dot_axis[node.main_axis as usize] > 0;
                    let mut i: u8 = 0;
                    while i < node.totnode
                        invariant
                            i <= node.totnode,
                            self.structured(),
                            self.in_tree(s),
                            self.totleaf <= s < self.totleaf + self.branches(),
                            s == node_index,
                            data.wf(),
                            callback.is_some() ==> tests(callback.unwrap()),
                            *node == self.node(s),
                            node.children@.len() == self.tree_type,
                            1 <= node.totnode <= self.tree_type,
                            forward == (component(data.dir, node.main_axis as int) > 0),
                            callback.is_none() ==> *r_hit_data == self.cast_children(
                                s,
                                data.co,
                                data.dir,
                                self.leaf_hit(data.co, data.dir),
                                i as nat,
                                *old(r_hit_data),
                            ),
                            forall|answer: spec_fn(E) -> Option<RayHitData<E, X>>|
                                callback.is_some() && #[trigger] computes(
                                    callback.unwrap(),
                                    answer,
                                ) ==> *r_hit_data == self.cast_children(
                                    s,
                                    data.co,
                                    data.dir,
                                    self.leaf_hit_with(answer),
                                    i as nat,
                                    *old(r_hit_data),
                                ),
                            callback.is_some() ==> *r_hit_data == *old(r_hit_data) || answered(
                                callback.unwrap(),
                                *r_hit_data,
                            ),
                        decreases node.totnode - i,
                    {
                        let at: u8 = if forward {
                            i
                        } else {
                            node.totnode - 1 - i
                        };
                        proof {
                            assert(at == self.ray_visit(s, data.dir, i as int));
                            self.lemma_child(s, at as int);
                        }
                        let ghost before = *r_hit_data;
                        self.ray_cast_traverse(
                            node.children[at as usize],
                            data,
                            callback,
                            r_hit_data,
                        );
                        proof {
                            let c = node.children@[at as int] as int;
                            assert forall|answer: spec_fn(E) -> Option<RayHitData<E, X>>|
                                callback.is_some() && #[trigger] computes(
                                    callback.unwrap(),
                                    answer,
                                ) implies *r_hit_data == self.cast_children(
                                s,
                                data.co,
                                data.dir,
                                self.leaf_hit_with(answer),
                                (i + 1) as nat,
                                *old(r_hit_data),
                            ) by {
                                assert(before == self.cast_children(
                                    s,
                                    data.co,
                                    data.dir,
                                    self.leaf_hit_with(answer),
                                    i as nat,
                                    *old(r_hit_data),
                                ));
                                assert(*r_hit_data == self.cast(
                                    c,
                                    data.co,
                                    data.dir,
                                    self.leaf_hit_with(answer),
                                    before,
                                ));
                            }
                        }
                        i = i + 1;
                    }
                }
            },
        }
    }

    /// Casts a ray with or without a callback.
    fn ray_cast_optional_callback<X: Copy, F: Fn(E) -> Option<RayHitData<E, X>>>(
        &self,
        co: Vec3,
        dir: Vec3,
        callback: &Option<F>,
    ) -> (r: Option<RayHitData<E, X>>)
        requires
            self.ready(),
            in_range(co),
            in_range(dir),
            callback.is_some() ==> tests(callback.unwrap()),
        ensures
            callback.is_none() ==> r == self.ray_answer(co, dir, self.leaf_hit::<X>(co, dir)),
            forall|answer: spec_fn(E) -> Option<RayHitData<E, X>>|
                callback.is_some() && #[trigger] computes(callback.unwrap(), answer) ==> r
                    == self.ray_answer(co, dir, self.leaf_hit_with(answer)),
            r.is_some() ==> r.unwrap().data.is_some(),
            callback.is_some() && r.is_some() ==> answered(callback.unwrap(), r.unwrap()),
    {
        if self.totleaf == 0 {
            // no elements, so nothing to hit
            return None;
        }
        proof {
            assert(self.nodes@[self.totleaf as int] == self.totleaf);
        }
        let root_index = self.nodes[self.totleaf];
        let data = RayCastData::new(co, dir);
        let mut hit_data = RayHitData::new(Ratio::infinite());
        self.ray_cast_traverse(root_index, &data, callback, &mut hit_data);
        if hit_data.data.is_some() {
            Some(hit_data)
        } else {
            None
        }
    }

    /// Casts a ray from `co` along `dir` and returns the nearest hit that
    /// `callback` reports.
    ///
    /// `callback` is given the element of each leaf whose box the ray
    /// enters nearer than the nearest hit so far, and returns the hit of
    /// the ray on that element, if there is one.
    pub fn ray_cast<X: Copy, F: Fn(E) -> Option<RayHitData<E, X>>>(
        &self,
        co: Vec3,
        dir: Vec3,
        callback: F,
    ) -> (r: Option<RayHitData<E, X>>)
        requires
            self.ready(),
            in_range(co),
            in_range(dir),
            tests(callback),
        ensures
            forall|answer: spec_fn(E) -> Option<RayHitData<E, X>>| #[trigger]
                computes(callback, answer) ==> r == self.ray_answer(
                    co,
                    dir,
                    self.leaf_hit_with(answer),
                ),
            r.is_some() ==> r.unwrap().data.is_some() && answered(callback, r.unwrap()),
    {
        let given = Some(callback);
        let r = self.ray_cast_optional_callback(co, dir, &given);
        proof {
            assert forall|answer: spec_fn(E) -> Option<RayHitData<E, X>>| #[trigger]
                computes(callback, answer) implies r == self.ray_answer(
                co,
                dir,
                self.leaf_hit_with(answer),
            ) by {
                assert(computes(given.unwrap(), answer));
            }
        }
        r
    }

    /// Casts a ray from `co` along `dir` and returns the nearest box that
    /// it enters: the leaf's element, the point where the ray enters and
    /// how far along the ray that is.
    pub fn ray_cast_no_callback(&self, co: Vec3, dir: Vec3) -> (r: Option<RayHitData<E, ()>>)
        requires
            self.ready(),
            in_range(co),
            in_range(dir),
        ensures
            r == self.ray_answer(co, dir, self.leaf_hit::<()>(co, dir)),
    {
        // a callback that is never given, for its type alone
        let unused = |_elem: E| -> Option<RayHitData<E, ()>> { None };
        let callback = absent(unused);
        self.ray_cast_optional_callback(co, dir, &callback)
    }
}

} // verus!
