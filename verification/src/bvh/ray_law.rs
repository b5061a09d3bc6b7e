//! In a tree that bounds its leaves along the cardinal axes, a ray cast
//! finds the nearest hit: without a callback the box that the
//! ray enters first, and with one the nearest of the callback's answers.

use crate::bvh::kdop::{bounded, contains_bv, first_axis, hi, in_range, lo};
use crate::bvh::laws::lemma_contains_part;
use crate::bvh::nearest::component;
use crate::bvh::ratio::{lemma_larger, lemma_less_form, lemma_ratio_order, Ratio};
use crate::bvh::ray::{enter, hit_point, leave, spec_ray_hit, RayHitData, RayHitOptionalData};
use crate::bvh::BVHTree;
use crate::vector::Vec3;
use vstd::prelude::*;

verus! {

/// Where the ray from `co` along `dir` enters the box of `bv`, however
/// far that is.
pub open spec fn struck(bv: Seq<i64>, co: Vec3, dir: Vec3) -> Option<Ratio> {
    spec_ray_hit(bv, co, dir, Ratio::spec_infinite())
}

/// Of four ratios in order, the first is no larger than the last.
pub proof fn lemma_chain(a: Ratio, b: Ratio, c: Ratio, d: Ratio)
    requires
        a.spec_at_most(b),
        b.spec_at_most(c),
        c.spec_at_most(d),
    ensures
        a.spec_at_most(d),
{
    lemma_ratio_order(a, b, c);
    lemma_ratio_order(a, c, d);
}

/// A ray enters a slab no later, and leaves it no earlier, than a slab
/// within it.
pub proof fn lemma_plane_order(outer: Seq<i64>, inner: Seq<i64>, co: Vec3, dir: Vec3, i: int)
    requires
        outer.len() >= 6,
        inner.len() >= 6,
        first_axis(outer) == 0,
        first_axis(inner) == 0,
        bounded(outer),
        bounded(inner),
        in_range(co),
        in_range(dir),
        0 <= i < 3,
        lo(outer, i) <= lo(inner, i),
        hi(inner, i) <= hi(outer, i),
    ensures
        enter(outer, co, dir, i).spec_at_most(enter(inner, co, dir, i)),
        leave(inner, co, dir, i).spec_at_most(leave(outer, co, dir, i)),
{
    let d = component(dir, i);
    let c = component(co, i);
    let eo = enter(outer, co, dir, i);
    let ei = enter(inner, co, dir, i);
    let lv_o = leave(outer, co, dir, i);
    let lv_i = leave(inner, co, dir, i);
    assert(outer[2 * i] == lo(outer, i) && outer[2 * i + 1] == hi(outer, i));
    assert(inner[2 * i] == lo(inner, i) && inner[2 * i + 1] == hi(inner, i));
    lemma_less_form(ei, eo);
    lemma_less_form(lv_o, lv_i);
    if d > 0 {
        assert(ei.top() * eo.bottom() >= eo.top() * ei.bottom()) by (nonlinear_arith)
            requires
                ei.top() >= eo.top(),
                eo.bottom() == ei.bottom(),
                ei.bottom() > 0,
        ;
        assert(lv_o.top() * lv_i.bottom() >= lv_i.top() * lv_o.bottom()) by (nonlinear_arith)
            requires
                lv_o.top() >= lv_i.top(),
                lv_o.bottom() == lv_i.bottom(),
                lv_i.bottom() > 0,
        ;
    } else if d < 0 {
        assert(ei.top() * eo.bottom() >= eo.top() * ei.bottom()) by (nonlinear_arith)
            requires
                ei.top() >= eo.top(),
                eo.bottom() == ei.bottom(),
                ei.bottom() > 0,
        ;
        assert(lv_o.top() * lv_i.bottom() >= lv_i.top() * lv_o.bottom()) by (nonlinear_arith)
            requires
                lv_o.top() >= lv_i.top(),
                lv_o.bottom() == lv_i.bottom(),
                lv_i.bottom() > 0,
        ;
    } else {
        assert(ei.top() >= eo.top());
        assert(lv_o.top() >= lv_i.top());
        if ei.class() == 1 && eo.class() == 1 {
            assert(ei.top() == 0 && eo.top() == 0);
        }
        if lv_i.class() == 1 && lv_o.class() == 1 {
            assert(lv_i.top() == 0 && lv_o.top() == 0);
        }
    }
}

/// A ray that enters a box no further than `dist` is one that enters it
/// at all, no further than `dist`.
pub proof fn lemma_hit_cut(bv: Seq<i64>, co: Vec3, dir: Vec3, dist: Ratio)
    ensures
        spec_ray_hit(bv, co, dir, dist) == match struck(bv, co, dir) {
            Some(d) => if dist.spec_less(d) {
                None
            } else {
                Some(d)
            },
            None => None,
        },
{
    let t1x = enter(bv, co, dir, 0);
    let t1y = enter(bv, co, dir, 1);
    let t1z = enter(bv, co, dir, 2);
    let far = Ratio::spec_infinite();
    let m1 = t1x.spec_larger(t1y);
    let m = m1.spec_larger(t1z);
    lemma_less_form(far, t1x);
    lemma_less_form(far, t1y);
    lemma_less_form(far, t1z);
    lemma_larger(t1x, t1y);
    lemma_larger(m1, t1z);
    lemma_ratio_order(t1x, m1, m);
    lemma_ratio_order(t1y, m1, m);
    lemma_ratio_order(dist, t1x, m);
    lemma_ratio_order(dist, t1y, m);
    lemma_ratio_order(dist, t1z, m);
}

/// A ray that enters a box enters every box that contains it, and no
/// later.
pub proof fn lemma_hit_within(outer: Seq<i64>, inner: Seq<i64>, co: Vec3, dir: Vec3)
    requires
        outer.len() >= 6,
        inner.len() >= 6,
        first_axis(outer) == 0,
        first_axis(inner) == 0,
        bounded(outer),
        bounded(inner),
        in_range(co),
        in_range(dir),
        contains_bv(outer, inner, 0, 3),
        struck(inner, co, dir).is_some(),
    ensures
        struck(outer, co, dir).is_some(),
        struck(outer, co, dir).unwrap().spec_at_most(struck(inner, co, dir).unwrap()),
{
    let zero = Ratio::spec_zero();
    let far = Ratio::spec_infinite();
    let ex = enter(outer, co, dir, 0);
    let ey = enter(outer, co, dir, 1);
    let ez = enter(outer, co, dir, 2);
    let lx = leave(outer, co, dir, 0);
    let ly = leave(outer, co, dir, 1);
    let lz = leave(outer, co, dir, 2);
    let fx = enter(inner, co, dir, 0);
    let fy = enter(inner, co, dir, 1);
    let fz = enter(inner, co, dir, 2);
    let mx = leave(inner, co, dir, 0);
    let my = leave(inner, co, dir, 1);
    let mz = leave(inner, co, dir, 2);
    assert(lo(outer, 0) <= lo(inner, 0) && hi(inner, 0) <= hi(outer, 0));
    assert(lo(outer, 1) <= lo(inner, 1) && hi(inner, 1) <= hi(outer, 1));
    assert(lo(outer, 2) <= lo(inner, 2) && hi(inner, 2) <= hi(outer, 2));
    lemma_plane_order(outer, inner, co, dir, 0);
    lemma_plane_order(outer, inner, co, dir, 1);
    lemma_plane_order(outer, inner, co, dir, 2);
    lemma_chain(ex, fx, my, ly);
    lemma_chain(ey, fy, mx, lx);
    lemma_chain(ex, fx, mz, lz);
    lemma_chain(ez, fz, mx, lx);
    lemma_chain(ey, fy, mz, lz);
    lemma_chain(ez, fz, my, ly);
    lemma_ratio_order(zero, mx, lx);
    lemma_ratio_order(zero, my, ly);
    lemma_ratio_order(zero, mz, lz);
    lemma_less_form(far, ex);
    lemma_less_form(far, ey);
    lemma_less_form(far, ez);
    let found = struck(inner, co, dir).unwrap();
    let f1 = fx.spec_larger(fy);
    lemma_larger(fx, fy);
    lemma_larger(f1, fz);
    lemma_ratio_order(fx, f1, found);
    lemma_ratio_order(fy, f1, found);
    let e1 = ex.spec_larger(ey);
    lemma_larger(ex, ey);
    lemma_larger(e1, ez);
    lemma_ratio_order(ex, fx, found);
    lemma_ratio_order(ey, fy, found);
    lemma_ratio_order(ez, fz, found);
}

impl<E: Copy> BVHTree<E> {
    /// Where the ray enters the box of the leaf in slot `l`, if it does.
    pub open spec fn entry(&self, co: Vec3, dir: Vec3, l: int) -> Option<Ratio> {
        struck(self.bv(l), co, dir)
    }

    /// Whether the ray enters the box of the leaf in slot `l`, and not
    /// infinitely far.
    pub open spec fn strikes(&self, co: Vec3, dir: Vec3, l: int) -> bool {
        &&& 0 <= l < self.totleaf
        &&& self.entry(co, dir, l).is_some()
        &&& self.entry(co, dir, l).unwrap().spec_less(Ratio::spec_infinite())
    }

    /// The hit of the ray on the box of the leaf in slot `l`, with the
    /// normal and the extra data of `best`.
    pub open spec fn hit_record<X: Copy>(
        &self,
        co: Vec3,
        dir: Vec3,
        l: int,
        best: RayHitData<E, X>,
    ) -> RayHitData<E, X> {
        RayHitData {
            data: Some(
                RayHitOptionalData {
                    elem_index: self.elem_at(l),
                    co: hit_point(co, dir, self.entry(co, dir, l).unwrap()),
                },
            ),
            normal: best.normal,
            dist: self.entry(co, dir, l).unwrap(),
            extra_data: best.extra_data,
        }
    }

    /// A ray that enters the box of a leaf enters that of every node over
    /// the leaf, and no later.
    pub proof fn lemma_node_entered(&self, n: int, l: int, co: Vec3, dir: Vec3)
        requires
            self.wf(),
            self.cardinal(),
            self.in_tree(n),
            self.reaches(n, l),
            in_range(co),
            in_range(dir),
            self.entry(co, dir, l).is_some(),
        ensures
            0 <= l < self.totleaf,
            struck(self.bv(n), co, dir).is_some(),
            struck(self.bv(n), co, dir).unwrap().spec_at_most(self.entry(co, dir, l).unwrap()),
    {
        self.law_contains_leaves(n, l);
        self.lemma_volume_length(n);
        self.lemma_volume_length(l);
        assert(self.shape_ok(n));
        assert(self.shape_ok(l));
        lemma_contains_part(
            self.bv(n),
            self.bv(l),
            self.start_axis as int,
            self.stop_axis as int,
            0,
            3,
        );
        lemma_hit_within(self.bv(n), self.bv(l), co, dir);
    }

    /// What the cast leaves after a node: a hit no further than the one it
    /// started with and than the entry of the ray into any leaf under the
    /// node, which is the one it started with or that on a nearer leaf
    /// under the node.
    pub proof fn lemma_cast<X: Copy>(&self, s: int, co: Vec3, dir: Vec3, best: RayHitData<E, X>)
        requires
            self.wf(),
            self.cardinal(),
            self.in_tree(s),
            in_range(co),
            in_range(dir),
        ensures
            self.cast(s, co, dir, self.leaf_hit(co, dir), best).dist.spec_at_most(best.dist),
            forall|l: int|
                self.reaches(s, l) && (#[trigger] self.entry(co, dir, l)).is_some() ==> self.cast(
                    s,
                    co,
                    dir,
                    self.leaf_hit(co, dir),
                    best,
                ).dist.spec_at_most(self.entry(co, dir, l).unwrap()),
            self.cast(s, co, dir, self.leaf_hit(co, dir), best) == best || exists|l: int|
                self.reaches(s, l) && self.cast(s, co, dir, self.leaf_hit(co, dir), best)
                    == #[trigger] self.hit_record(co, dir, l, best) && self.entry(
                    co,
                    dir,
                    l,
                ).is_some() && self.entry(co, dir, l).unwrap().spec_less(best.dist),
        decreases self.rank(s), 1nat, 0nat,
    {
        let out = self.cast(s, co, dir, self.leaf_hit(co, dir), best);
        let here = spec_ray_hit(self.bv(s), co, dir, best.dist);
        lemma_hit_cut(self.bv(s), co, dir, best.dist);
        lemma_ratio_order(best.dist, best.dist, best.dist);
        if here.is_none() || !here.unwrap().spec_less(best.dist) {
            assert(out == best);
            assert forall|l: int|
                self.reaches(s, l) && (#[trigger] self.entry(co, dir, l)).is_some() implies out.dist.spec_at_most(
                self.entry(co, dir, l).unwrap(),
            ) by {
                self.lemma_node_entered(s, l, co, dir);
                let ds = struck(self.bv(s), co, dir).unwrap();
                let dl = self.entry(co, dir, l).unwrap();
                lemma_ratio_order(best.dist, ds, dl);
                lemma_ratio_order(best.dist, dl, best.dist);
            }
        } else if self.node(s).totnode == 0 {
            let ds = here.unwrap();
            self.lemma_leaf(s);
            assert(self.reaches(s, s));
            assert(self.entry(co, dir, s) == Some(ds));
            assert(out == self.hit_record(co, dir, s, best));
            lemma_ratio_order(ds, best.dist, ds);
            lemma_ratio_order(ds, ds, ds);
            assert forall|l: int|
                self.reaches(s, l) && (#[trigger] self.entry(co, dir, l)).is_some() implies out.dist.spec_at_most(
                self.entry(co, dir, l).unwrap(),
            ) by {
                assert(l == s);
            }
        } else {
            self.lemma_branch(s);
            let m = self.node(s).totnode as nat;
            self.lemma_cast_children(s, co, dir, m, best);
            assert forall|l: int|
                self.reaches(s, l) && (#[trigger] self.entry(co, dir, l)).is_some() implies out.dist.spec_at_most(
                self.entry(co, dir, l).unwrap(),
            ) by {
                let k = choose|k: int|
                    0 <= k < self.node(s).totnode && self.rank(
                        #[trigger] self.node(s).children@[k] as int,
                    ) < self.rank(s) && self.reaches(self.node(s).children@[k] as int, l);
                let i = if component(dir, self.node(s).main_axis as int) > 0 {
                    k
                } else {
                    self.node(s).totnode - 1 - k
                };
                assert(self.ray_visit(s, dir, i) == k);
                assert(self.under_ray(s, dir, i, l));
            }
            if out != best {
                let w = choose|w: (int, int)|
                    0 <= w.0 < m && #[trigger] self.under_ray(s, dir, w.0, w.1) && out
                        == self.hit_record(co, dir, w.1, best) && self.entry(
                        co,
                        dir,
                        w.1,
                    ).is_some() && self.entry(co, dir, w.1).unwrap().spec_less(best.dist);
                let k = self.ray_visit(s, dir, w.0);
                self.lemma_child(s, k);
                assert(self.reaches(s, w.1));
            }
        }
    }

    /// Whether the leaf in slot `l` lies under the child of the inner node
    /// in slot `s` that the ray visits as number `i`.
    pub open spec fn under_ray(&self, s: int, dir: Vec3, i: int, l: int) -> bool {
        self.reaches(self.node(s).children@[self.ray_visit(s, dir, i)] as int, l)
    }

    /// What the cast leaves after the first `k` children of a node, in
    /// visiting order.
    pub proof fn lemma_cast_children<X: Copy>(
        &self,
        s: int,
        co: Vec3,
        dir: Vec3,
        k: nat,
        best: RayHitData<E, X>,
    )
        requires
            self.wf(),
            self.cardinal(),
            self.totleaf <= s < self.totleaf + self.branches(),
            in_range(co),
            in_range(dir),
            k <= self.node(s).totnode,
        ensures
            self.cast_children(s, co, dir, self.leaf_hit(co, dir), k, best).dist.spec_at_most(
                best.dist,
            ),
            forall|i: int, l: int|
                0 <= i < k && #[trigger] self.under_ray(s, dir, i, l) && self.entry(
                    co,
                    dir,
                    l,
                ).is_some() ==> self.cast_children(
                    s,
                    co,
                    dir,
                    self.leaf_hit(co, dir),
                    k,
                    best,
                ).dist.spec_at_most(self.entry(co, dir, l).unwrap()),
            self.cast_children(s, co, dir, self.leaf_hit(co, dir), k, best) == best || exists|
                w: (int, int),
            |
                0 <= w.0 < k && #[trigger] self.under_ray(s, dir, w.0, w.1) && self.cast_children(
                    s,
                    co,
                    dir,
                    self.leaf_hit(co, dir),
                    k,
                    best,
                ) == self.hit_record(co, dir, w.1, best) && self.entry(co, dir, w.1).is_some()
                    && self.entry(co, dir, w.1).unwrap().spec_less(best.dist),
        decreases self.rank(s), 0nat, k,
    {
        lemma_ratio_order(best.dist, best.dist, best.dist);
        if k > 0 {
            let out = self.cast_children(s, co, dir, self.leaf_hit(co, dir), k, best);
            let before = self.cast_children(
                s,
                co,
                dir,
                self.leaf_hit(co, dir),
                (k - 1) as nat,
                best,
            );
            self.lemma_cast_children(s, co, dir, (k - 1) as nat, best);
            self.lemma_branch(s);
            let at = self.ray_visit(s, dir, k - 1);
            assert(0 <= at < self.node(s).totnode);
            self.lemma_child(s, at);
            let c = self.node(s).children@[at] as int;
            assert(out == self.cast(c, co, dir, self.leaf_hit(co, dir), before));
            self.lemma_cast(c, co, dir, before);
            lemma_ratio_order(out.dist, before.dist, best.dist);
            assert(before.normal == best.normal && before.extra_data == best.extra_data) by {
                if before != best {
                    let w = choose|w: (int, int)|
                        0 <= w.0 < k - 1 && #[trigger] self.under_ray(s, dir, w.0, w.1) && before
                            == self.hit_record(co, dir, w.1, best);
                }
            }
            assert forall|i: int, l: int|
                0 <= i < k && #[trigger] self.under_ray(s, dir, i, l) && self.entry(
                    co,
                    dir,
                    l,
                ).is_some() implies out.dist.spec_at_most(self.entry(co, dir, l).unwrap()) by {
                if i == k - 1 {
                    assert(self.reaches(c, l));
                } else {
                    lemma_ratio_order(out.dist, before.dist, self.entry(co, dir, l).unwrap());
                }
            }
            if out != before {
                let l = choose|l: int|
                    self.reaches(c, l) && out == #[trigger] self.hit_record(co, dir, l, before)
                        && self.entry(co, dir, l).is_some() && self.entry(
                        co,
                        dir,
                        l,
                    ).unwrap().spec_less(before.dist);
                assert(self.under_ray(s, dir, k - 1, l));
                lemma_ratio_order(self.entry(co, dir, l).unwrap(), before.dist, best.dist);
                let w = (k - 1, l);
                assert(0 <= w.0 < k && self.under_ray(s, dir, w.0, w.1) && out == self.hit_record(
                    co,
                    dir,
                    w.1,
                    best,
                ) && self.entry(co, dir, w.1).is_some() && self.entry(
                    co,
                    dir,
                    w.1,
                ).unwrap().spec_less(best.dist));
            } else if before != best {
                let w = choose|w: (int, int)|
                    0 <= w.0 < k - 1 && #[trigger] self.under_ray(s, dir, w.0, w.1) && before
                        == self.hit_record(co, dir, w.1, best) && self.entry(
                        co,
                        dir,
                        w.1,
                    ).is_some() && self.entry(co, dir, w.1).unwrap().spec_less(best.dist);
                assert(0 <= w.0 < k);
            }
        }
    }
}

/// With no callback, a ray cast finds a leaf exactly where the ray enters
/// the box of some leaf, and the leaf it finds is one whose box the ray
/// enters first: it enters no leaf's box nearer. The hit names the leaf's
/// element, the distance at which the ray enters its box and the point
/// there.
pub proof fn law_ray_hits_first<E: Copy, X: Copy>(tree: &BVHTree<E>, co: Vec3, dir: Vec3)
    requires
        tree.wf(),
        tree.cardinal(),
        tree.balanced(),
        tree.spanning(),
        in_range(co),
        in_range(dir),
    ensures
        tree.ray_answer::<X>(co, dir, tree.leaf_hit(co, dir)).is_some() == exists|l: int|
            #[trigger] tree.strikes(co, dir, l),
        tree.ray_answer::<X>(co, dir, tree.leaf_hit(co, dir)).is_some() ==> {
            let found = tree.ray_answer::<X>(co, dir, tree.leaf_hit(co, dir)).unwrap();
            &&& forall|l: int|
                0 <= l < tree.totleaf && (#[trigger] tree.entry(co, dir, l)).is_some()
                    ==> found.dist.spec_at_most(tree.entry(co, dir, l).unwrap())
            &&& exists|l: int|
                #[trigger] tree.strikes(co, dir, l) && found.dist == tree.entry(
                    co,
                    dir,
                    l,
                ).unwrap() && found.data == Some(
                    RayHitOptionalData {
                        elem_index: tree.elem_at(l),
                        co: hit_point(co, dir, found.dist),
                    },
                )
        },
{
    let root = tree.root();
    let far = Ratio::spec_infinite();
    let start = RayHitData::<E, X> { data: None, normal: None, dist: far, extra_data: None };
    let found = tree.cast(root, co, dir, tree.leaf_hit(co, dir), start);
    assert(tree.in_tree(root));
    tree.lemma_cast(root, co, dir, start);
    assert forall|l: int|
        0 <= l < tree.totleaf && (#[trigger] tree.entry(co, dir, l)).is_some() implies found.dist.spec_at_most(
        tree.entry(co, dir, l).unwrap(),
    ) by {
        assert(tree.reaches(root, l));
    }
    if found != start {
        let l = choose|l: int|
            tree.reaches(root, l) && found == #[trigger] tree.hit_record(co, dir, l, start)
                && tree.entry(co, dir, l).is_some() && tree.entry(co, dir, l).unwrap().spec_less(
                start.dist,
            );
        tree.lemma_node_entered(root, l, co, dir);
        assert(tree.strikes(co, dir, l));
    }
    if exists|l: int| #[trigger] tree.strikes(co, dir, l) {
        let l = choose|l: int| #[trigger] tree.strikes(co, dir, l);
        assert(tree.reaches(root, l));
        let dl = tree.entry(co, dir, l).unwrap();
        lemma_ratio_order(found.dist, dl, far);
        lemma_ratio_order(far, far, far);
        assert(found != start);
    }
}

impl<E: Copy> BVHTree<E> {
    /// Whether the ray enters the box of the leaf in slot `l`, and `hit` is
    /// the answer of `f` for the leaf's element.
    pub open spec fn offers<X: Copy>(
        &self,
        f: spec_fn(E) -> Option<RayHitData<E, X>>,
        co: Vec3,
        dir: Vec3,
        l: int,
        hit: RayHitData<E, X>,
    ) -> bool {
        &&& 0 <= l < self.totleaf
        &&& self.entry(co, dir, l).is_some()
        &&& f(self.elem_at(l)) == Some(hit)
    }

    /// Whether `f` answers as a test of the ray against what a leaf holds
    /// does: where the ray enters a leaf's box, with no hit nearer than
    /// the ray enters the box.
    pub open spec fn fair<X: Copy>(
        &self,
        f: spec_fn(E) -> Option<RayHitData<E, X>>,
        co: Vec3,
        dir: Vec3,
    ) -> bool {
        forall|l: int, hit: RayHitData<E, X>| #[trigger]
            self.offers(f, co, dir, l, hit) ==> self.entry(co, dir, l).unwrap().spec_at_most(
                hit.dist,
            )
    }

    /// What the cast with a callback leaves after a node: a hit no further
    /// than the one it started with and than the callback's answer for any
    /// leaf under the node, which is the one it started with or a nearer
    /// answer for a leaf under the node.
    pub proof fn lemma_cast_with<X: Copy>(
        &self,
        s: int,
        co: Vec3,
        dir: Vec3,
        f: spec_fn(E) -> Option<RayHitData<E, X>>,
        best: RayHitData<E, X>,
    )
        requires
            self.wf(),
            self.cardinal(),
            self.in_tree(s),
            in_range(co),
            in_range(dir),
            self.fair(f, co, dir),
        ensures
            self.cast(s, co, dir, self.leaf_hit_with(f), best).dist.spec_at_most(best.dist),
            forall|l: int, hit: RayHitData<E, X>|
                self.reaches(s, l) && #[trigger] self.offers(f, co, dir, l, hit) ==> self.cast(
                    s,
                    co,
                    dir,
                    self.leaf_hit_with(f),
                    best,
                ).dist.spec_at_most(hit.dist),
            self.cast(s, co, dir, self.leaf_hit_with(f), best) == best || exists|l: int|
                self.reaches(s, l) && #[trigger] self.offers(f, co, dir,
                    l,
                    self.cast(s, co, dir, self.leaf_hit_with(f), best),
                ) && self.cast(s, co, dir, self.leaf_hit_with(f), best).dist.spec_less(best.dist),
        decreases self.rank(s), 1nat, 0nat,
    {
        let out = self.cast(s, co, dir, self.leaf_hit_with(f), best);
        let here = spec_ray_hit(self.bv(s), co, dir, best.dist);
        lemma_hit_cut(self.bv(s), co, dir, best.dist);
        lemma_ratio_order(best.dist, best.dist, best.dist);
        if here.is_none() || !here.unwrap().spec_less(best.dist) {
            assert(out == best);
            assert forall|l: int, hit: RayHitData<E, X>|
                self.reaches(s, l) && #[trigger] self.offers(f, co, dir,
                    l,
                    hit,
                ) implies out.dist.spec_at_most(hit.dist) by {
                self.lemma_node_entered(s, l, co, dir);
                let ds = struck(self.bv(s), co, dir).unwrap();
                let dl = self.entry(co, dir, l).unwrap();
                lemma_ratio_order(ds, dl, hit.dist);
                lemma_ratio_order(best.dist, ds, hit.dist);
                lemma_ratio_order(best.dist, hit.dist, best.dist);
            }
        } else if self.node(s).totnode == 0 {
            self.lemma_leaf(s);
            assert(self.reaches(s, s));
            let answer = f(self.elem_at(s));
            assert forall|l: int, hit: RayHitData<E, X>|
                self.reaches(s, l) && #[trigger] self.offers(f, co, dir,
                    l,
                    hit,
                ) implies out.dist.spec_at_most(hit.dist) by {
                assert(l == s);
                assert(answer == Some(hit));
                lemma_ratio_order(hit.dist, hit.dist, hit.dist);
            }
            if out != best {
                assert(self.offers(f, co, dir, s, out));
            }
            if answer.is_some() {
                lemma_ratio_order(answer.unwrap().dist, best.dist, answer.unwrap().dist);
            }
        } else {
            self.lemma_branch(s);
            let m = self.node(s).totnode as nat;
            self.lemma_cast_children_with(s, co, dir, f, m, best);
            assert forall|l: int, hit: RayHitData<E, X>|
                self.reaches(s, l) && #[trigger] self.offers(f, co, dir,
                    l,
                    hit,
                ) implies out.dist.spec_at_most(hit.dist) by {
                let k = choose|k: int|
                    0 <= k < self.node(s).totnode && self.rank(
                        #[trigger] self.node(s).children@[k] as int,
                    ) < self.rank(s) && self.reaches(self.node(s).children@[k] as int, l);
                let i = if component(dir, self.node(s).main_axis as int) > 0 {
                    k
                } else {
                    self.node(s).totnode - 1 - k
                };
                assert(self.ray_visit(s, dir, i) == k);
                assert(self.under_ray(s, dir, i, l));
            }
            if out != best {
                let w = choose|w: (int, int)|
                    0 <= w.0 < m && #[trigger] self.under_ray(s, dir, w.0, w.1)
                        && self.offers(f, co, dir, w.1, out) && out.dist.spec_less(best.dist);
                let k = self.ray_visit(s, dir, w.0);
                self.lemma_child(s, k);
                assert(self.reaches(s, w.1));
            }
        }
    }

    /// What the cast with a callback leaves after the first `k` children
    /// of a node, in visiting order.
    pub proof fn lemma_cast_children_with<X: Copy>(
        &self,
        s: int,
        co: Vec3,
        dir: Vec3,
        f: spec_fn(E) -> Option<RayHitData<E, X>>,
        k: nat,
        best: RayHitData<E, X>,
    )
        requires
            self.wf(),
            self.cardinal(),
            self.totleaf <= s < self.totleaf + self.branches(),
            in_range(co),
            in_range(dir),
            self.fair(f, co, dir),
            k <= self.node(s).totnode,
        ensures
            self.cast_children(s, co, dir, self.leaf_hit_with(f), k, best).dist.spec_at_most(
                best.dist,
            ),
            forall|i: int, l: int, hit: RayHitData<E, X>|
                0 <= i < k && #[trigger] self.under_ray(s, dir, i, l) && #[trigger] self.offers(f, co, dir,
                    l,
                    hit,
                ) ==> self.cast_children(
                    s,
                    co,
                    dir,
                    self.leaf_hit_with(f),
                    k,
                    best,
                ).dist.spec_at_most(hit.dist),
            self.cast_children(s, co, dir, self.leaf_hit_with(f), k, best) == best || exists|
                w: (int, int),
            |
                0 <= w.0 < k && #[trigger] self.under_ray(s, dir, w.0, w.1) && self.offers(f, co, dir,
                    w.1,
                    self.cast_children(s, co, dir, self.leaf_hit_with(f), k, best),
                ) && self.cast_children(
                    s,
                    co,
                    dir,
                    self.leaf_hit_with(f),
                    k,
                    best,
                ).dist.spec_less(best.dist),
        decreases self.rank(s), 0nat, k,
    {
        lemma_ratio_order(best.dist, best.dist, best.dist);
        if k > 0 {
            let out = self.cast_children(s, co, dir, self.leaf_hit_with(f), k, best);
            let before = self.cast_children(
                s,
                co,
                dir,
                self.leaf_hit_with(f),
                (k - 1) as nat,
                best,
            );
            self.lemma_cast_children_with(s, co, dir, f, (k - 1) as nat, best);
            self.lemma_branch(s);
            let at = self.ray_visit(s, dir, k - 1);
            assert(0 <= at < self.node(s).totnode);
            self.lemma_child(s, at);
            let c = self.node(s).children@[at] as int;
            assert(out == self.cast(c, co, dir, self.leaf_hit_with(f), before));
            self.lemma_cast_with(c, co, dir, f, before);
            lemma_ratio_order(out.dist, before.dist, best.dist);
            assert forall|i: int, l: int, hit: RayHitData<E, X>|
                0 <= i < k && #[trigger] self.under_ray(s, dir, i, l) && #[trigger] self.offers(f, co, dir,
                    l,
                    hit,
                ) implies out.dist.spec_at_most(hit.dist) by {
                if i == k - 1 {
                    assert(self.reaches(c, l));
                } else {
                    lemma_ratio_order(out.dist, before.dist, hit.dist);
                }
            }
            if out != before {
                let l = choose|l: int|
                    self.reaches(c, l) && #[trigger] self.offers(f, co, dir, l, out)
                        && out.dist.spec_less(before.dist);
                assert(self.under_ray(s, dir, k - 1, l));
                let w = (k - 1, l);
                assert(0 <= w.0 < k && self.under_ray(s, dir, w.0, w.1) && self.offers(f, co, dir,
                    w.1,
                    out,
                ) && out.dist.spec_less(best.dist));
            } else if before != best {
                let w = choose|w: (int, int)|
                    0 <= w.0 < k - 1 && #[trigger] self.under_ray(s, dir, w.0, w.1)
                        && self.offers(f, co, dir, w.1, before) && before.dist.spec_less(best.dist);
                assert(0 <= w.0 < k);
            }
        }
    }
}

/// With a callback that answers as `f` does, with no hit nearer than the
/// ray enters the leaf's box, a ray cast returns the nearest of the
/// answers for the leaves whose boxes the ray enters: an answer for such
/// a leaf, than which no such leaf's answer is nearer. It returns nothing
/// only where every such answer that is not infinitely far is no nearer
/// than one that does not name what was hit.
pub proof fn law_ray_answer_is_nearest<E: Copy, X: Copy>(
    tree: &BVHTree<E>,
    co: Vec3,
    dir: Vec3,
    f: spec_fn(E) -> Option<RayHitData<E, X>>,
)
    requires
        tree.wf(),
        tree.cardinal(),
        tree.balanced(),
        tree.spanning(),
        in_range(co),
        in_range(dir),
        tree.fair(f, co, dir),
    ensures
        tree.ray_answer(co, dir, tree.leaf_hit_with(f)).is_some() ==> {
            let found = tree.ray_answer(co, dir, tree.leaf_hit_with(f)).unwrap();
            &&& forall|l: int, hit: RayHitData<E, X>| #[trigger]
                tree.offers(f, co, dir, l, hit) ==> found.dist.spec_at_most(hit.dist)
            &&& exists|l: int| #[trigger] tree.offers(f, co, dir, l, found)
        },
        tree.ray_answer(co, dir, tree.leaf_hit_with(f)).is_none() ==> forall|
            l: int,
            hit: RayHitData<E, X>,
        | #[trigger]
            tree.offers(f, co, dir, l, hit) && hit.dist.spec_less(Ratio::spec_infinite()) ==> exists|
                m: int,
                other: RayHitData<E, X>,
            | #[trigger]
                tree.offers(f, co, dir, m, other) && other.data.is_none() && other.dist.spec_at_most(
                    hit.dist,
                ),
{
    let root = tree.root();
    let far = Ratio::spec_infinite();
    let start = RayHitData::<E, X> { data: None, normal: None, dist: far, extra_data: None };
    let found = tree.cast(root, co, dir, tree.leaf_hit_with(f), start);
    assert(tree.in_tree(root));
    tree.lemma_cast_with(root, co, dir, f, start);
    assert forall|l: int, hit: RayHitData<E, X>| #[trigger]
        tree.offers(f, co, dir, l, hit) implies found.dist.spec_at_most(hit.dist) by {
        assert(tree.reaches(root, l));
    }
    if found != start {
        let l = choose|l: int|
            tree.reaches(root, l) && #[trigger] tree.offers(f, co, dir, l, found)
                && found.dist.spec_less(start.dist);
        assert(tree.offers(f, co, dir, l, found));
    }
    if tree.ray_answer(co, dir, tree.leaf_hit_with(f)).is_none() {
        assert forall|l: int, hit: RayHitData<E, X>| #[trigger]
            tree.offers(f, co, dir, l, hit) && hit.dist.spec_less(far) implies exists|
            m: int,
            other: RayHitData<E, X>,
        | #[trigger]
            tree.offers(f, co, dir, m, other) && other.data.is_none() && other.dist.spec_at_most(
                hit.dist,
            ) by {
            lemma_ratio_order(found.dist, hit.dist, far);
            lemma_ratio_order(far, far, far);
            assert(found != start);
            let m = choose|m: int| #[trigger] tree.offers(f, co, dir, m, found);
            assert(tree.offers(f, co, dir, m, found) && found.data.is_none()
                && found.dist.spec_at_most(hit.dist));
        }
    }
}

} // verus!
