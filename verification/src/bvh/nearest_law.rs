//! In a tree that bounds its leaves along the cardinal axes, the search
//! for the nearest leaf finds the nearest leaf: without a
//! callback the leaf whose box is nearest, and with one that measures the
//! leaves, the leaf that it measures nearest.

use crate::bvh::kdop::{
    bounded, clamp_to, contains_bv, first_axis, hi, in_range, lo, nearest_on_box, BV_MAX,
};
use crate::bvh::laws::lemma_contains_part;
use crate::bvh::nearest::{box_distance, box_point, NearestData};
use crate::bvh::BVHTree;
use crate::vector::Vec3;
use vstd::prelude::*;

verus! {

/// Whether the box of `bv` is not empty: on each cardinal axis the lower
/// end is not above the upper end.
pub open spec fn solid(bv: Seq<i64>) -> bool {
    forall|i: int|
        #![trigger lo(bv, i)]
        #![trigger hi(bv, i)]
        0 <= i < 3 ==> lo(bv, i) <= hi(bv, i)
}

/// A point is no further from an interval than from an interval within
/// it.
pub proof fn lemma_clamp_nearer(p: int, lo_o: int, hi_o: int, lo_i: int, hi_i: int)
    requires
        lo_o <= lo_i <= hi_i <= hi_o,
    ensures
        (p - clamp_to(p, lo_o, hi_o)) * (p - clamp_to(p, lo_o, hi_o)) <= (p - clamp_to(
            p,
            lo_i,
            hi_i,
        )) * (p - clamp_to(p, lo_i, hi_i)),
{
    let a = p - clamp_to(p, lo_o, hi_o);
    let b = p - clamp_to(p, lo_i, hi_i);
    assert((0 <= a <= b) || (b <= a <= 0));
    assert(a * a <= b * b) by (nonlinear_arith)
        requires
            (0 <= a <= b) || (b <= a <= 0),
    ;
}

/// The squared distance from an in-range point to a bounded box fits the
/// scalar.
pub proof fn lemma_box_distance_fits(bv: Seq<i64>, co: Vec3)
    requires
        bv.len() >= 6,
        bounded(bv),
        in_range(co),
    ensures
        0 <= box_distance(bv, co) <= 0x3000_0000_0000_0000,
        box_point(bv, co).x == nearest_on_box(bv, co).0,
        box_point(bv, co).y == nearest_on_box(bv, co).1,
        box_point(bv, co).z == nearest_on_box(bv, co).2,
{
    let n = nearest_on_box(bv, co);
    assert(-BV_MAX <= bv[0] <= BV_MAX && -BV_MAX <= bv[1] <= BV_MAX);
    assert(-BV_MAX <= bv[2] <= BV_MAX && -BV_MAX <= bv[3] <= BV_MAX);
    assert(-BV_MAX <= bv[4] <= BV_MAX && -BV_MAX <= bv[5] <= BV_MAX);
    let dx = co.x - n.0;
    let dy = co.y - n.1;
    let dz = co.z - n.2;
    assert(0 <= dx * dx <= 0x1000_0000_0000_0000) by (nonlinear_arith)
        requires
            -0x4000_0000 <= dx <= 0x4000_0000,
    ;
    assert(0 <= dy * dy <= 0x1000_0000_0000_0000) by (nonlinear_arith)
        requires
            -0x4000_0000 <= dy <= 0x4000_0000,
    ;
    assert(0 <= dz * dz <= 0x1000_0000_0000_0000) by (nonlinear_arith)
        requires
            -0x4000_0000 <= dz <= 0x4000_0000,
    ;
}

/// A point is no further from a box than from a box within it.
pub proof fn lemma_box_nearer(outer: Seq<i64>, inner: Seq<i64>, co: Vec3)
    requires
        outer.len() >= 6,
        inner.len() >= 6,
        first_axis(outer) == 0,
        first_axis(inner) == 0,
        bounded(outer),
        bounded(inner),
        in_range(co),
        contains_bv(outer, inner, 0, 3),
        solid(inner),
    ensures
        box_distance(outer, co) <= box_distance(inner, co),
{
    lemma_box_distance_fits(outer, co);
    lemma_box_distance_fits(inner, co);
    assert(lo(outer, 0) <= lo(inner, 0) && hi(inner, 0) <= hi(outer, 0));
    assert(lo(outer, 1) <= lo(inner, 1) && hi(inner, 1) <= hi(outer, 1));
    assert(lo(outer, 2) <= lo(inner, 2) && hi(inner, 2) <= hi(outer, 2));
    assert(lo(inner, 0) <= hi(inner, 0));
    assert(lo(inner, 1) <= hi(inner, 1));
    assert(lo(inner, 2) <= hi(inner, 2));
    lemma_clamp_nearer(co.x as int, lo(outer, 0), hi(outer, 0), lo(inner, 0), hi(inner, 0));
    lemma_clamp_nearer(co.y as int, lo(outer, 1), hi(outer, 1), lo(inner, 1), hi(inner, 1));
    lemma_clamp_nearer(co.z as int, lo(outer, 2), hi(outer, 2), lo(inner, 2), hi(inner, 2));
}

impl<E: Copy> BVHTree<E> {
    /// Whether the box of every leaf is not empty.
    pub open spec fn solid_leaves(&self) -> bool {
        forall|l: int| 0 <= l < self.totleaf ==> solid(#[trigger] self.bv(l))
    }

    /// The record of the leaf in slot `l` as the nearest to `co`.
    pub open spec fn record_of(&self, co: Vec3, l: int) -> NearestData<E> {
        NearestData {
            elem_index: Some(self.elem_at(l)),
            co: Some(box_point(self.bv(l), co)),
            normal: None,
            dist_sq: box_distance(self.bv(l), co) as i64,
        }
    }

    /// The squared distance from `co` to the box of the leaf in slot `l`.
    pub open spec fn leaf_distance(&self, co: Vec3, l: int) -> int {
        box_distance(self.bv(l), co)
    }

    /// A node is no further from a point than any leaf under it.
    pub proof fn lemma_node_nearer(&self, n: int, l: int, co: Vec3)
        requires
            self.wf(),
            self.cardinal(),
            self.in_tree(n),
            self.reaches(n, l),
            self.solid_leaves(),
            in_range(co),
        ensures
            0 <= l < self.totleaf,
            0 <= box_distance(self.bv(n), co) <= self.leaf_distance(co, l)
                <= 0x3000_0000_0000_0000,
    {
        self.law_contains_leaves(n, l);
        self.lemma_volume_length(n);
        self.lemma_volume_length(l);
        assert(self.shape_ok(n));
        assert(self.shape_ok(l));
        lemma_contains_part(
            self.bv(n),
            self.bv(l),
            self.start_axis as int,
            self.stop_axis as int,
            0,
            3,
        );
        lemma_box_nearer(self.bv(n), self.bv(l), co);
        lemma_box_distance_fits(self.bv(n), co);
        lemma_box_distance_fits(self.bv(l), co);
    }

    /// What the search leaves after a node: a record no further than the
    /// one it started with and than every leaf under the node, which is
    /// the one it started with or that of a nearer leaf under the node.
    pub proof fn lemma_seek(&self, s: int, co: Vec3, best: NearestData<E>)
        requires
            self.wf(),
            self.cardinal(),
            self.in_tree(s),
            self.solid_leaves(),
            in_range(co),
            self.node(s).totnode == 0 ==> box_distance(self.bv(s), co) < best.dist_sq,
        ensures
            self.seek(s, co, self.leaf_box(co), best).dist_sq <= best.dist_sq,
            forall|l: int|
                self.reaches(s, l) ==> self.seek(s, co, self.leaf_box(co), best).dist_sq
                    <= #[trigger] self.leaf_distance(co, l),
            self.seek(s, co, self.leaf_box(co), best) == best || exists|l: int|
                self.reaches(s, l) && self.seek(s, co, self.leaf_box(co), best)
                    == #[trigger] self.record_of(co, l) && self.leaf_distance(co, l)
                    < best.dist_sq,
        decreases self.rank(s), 1nat, 0nat,
    {
        let out = self.seek(s, co, self.leaf_box(co), best);
        if self.node(s).totnode == 0 {
            self.lemma_leaf(s);
            assert(self.reaches(s, s));
            self.lemma_node_nearer(s, s, co);
            assert(out == self.record_of(co, s));
            assert forall|l: int| self.reaches(s, l) implies out.dist_sq
                <= #[trigger] self.leaf_distance(co, l) by {
                assert(l == s);
            }
        } else {
            self.lemma_branch(s);
            let m = self.node(s).totnode as nat;
            self.lemma_seek_children(s, co, m, best);
            assert forall|l: int| self.reaches(s, l) implies out.dist_sq
                <= #[trigger] self.leaf_distance(co, l) by {
                let k = choose|k: int|
                    0 <= k < self.node(s).totnode && self.rank(
                        #[trigger] self.node(s).children@[k] as int,
                    ) < self.rank(s) && self.reaches(self.node(s).children@[k] as int, l);
                let i = if self.forward(s, co) {
                    k
                } else {
                    self.node(s).totnode - 1 - k
                };
                assert(self.visit(s, co, i) == k);
                assert(self.under_visited(s, co, i, l));
            }
            if out != best {
                let w = choose|w: (int, int)|
                    0 <= w.0 < m && #[trigger] self.under_visited(s, co, w.0, w.1) && out
                        == self.record_of(co, w.1) && self.leaf_distance(co, w.1) < best.dist_sq;
                let k = self.visit(s, co, w.0);
                self.lemma_child(s, k);
                assert(self.reaches(s, w.1));
            }
        }
    }

    /// Whether the leaf in slot `l` lies under the child of the inner node
    /// in slot `s` that is visited as number `i`.
    pub open spec fn under_visited(&self, s: int, co: Vec3, i: int, l: int) -> bool {
        self.reaches(self.node(s).children@[self.visit(s, co, i)] as int, l)
    }

    /// What the search leaves after the first `k` children of a node, in
    /// visiting order.
    pub proof fn lemma_seek_children(&self, s: int, co: Vec3, k: nat, best: NearestData<E>)
        requires
            self.wf(),
            self.cardinal(),
            self.totleaf <= s < self.totleaf + self.branches(),
            self.solid_leaves(),
            in_range(co),
            k <= self.node(s).totnode,
        ensures
            self.seek_children(s, co, self.leaf_box(co), k, best).dist_sq <= best.dist_sq,
            forall|i: int, l: int|
                0 <= i < k && #[trigger] self.under_visited(s, co, i, l) ==> self.seek_children(
                    s,
                    co,
                    self.leaf_box(co),
                    k,
                    best,
                ).dist_sq <= self.leaf_distance(co, l),
            self.seek_children(s, co, self.leaf_box(co), k, best) == best || exists|w: (int, int)|
                0 <= w.0 < k && #[trigger] self.under_visited(s, co, w.0, w.1)
                    && self.seek_children(s, co, self.leaf_box(co), k, best) == self.record_of(
                    co,
                    w.1,
                ) && self.leaf_distance(co, w.1) < best.dist_sq,
        decreases self.rank(s), 0nat, k,
    {
        if k > 0 {
            let out = self.seek_children(s, co, self.leaf_box(co), k, best);
            let before = self.seek_children(s, co, self.leaf_box(co), (k - 1) as nat, best);
            self.lemma_seek_children(s, co, (k - 1) as nat, best);
            self.lemma_branch(s);
            let at = self.visit(s, co, k - 1);
            assert(0 <= at < self.node(s).totnode);
            self.lemma_child(s, at);
            let c = self.node(s).children@[at] as int;
            if box_distance(self.bv(c), co) >= before.dist_sq {
                assert(out == before);
                assert forall|i: int, l: int|
                    0 <= i < k && #[trigger] self.under_visited(s, co, i, l) implies out.dist_sq
                    <= self.leaf_distance(co, l) by {
                    if i == k - 1 {
                        self.lemma_node_nearer(c, l, co);
                    }
                }
            } else {
                assert(out == self.seek(c, co, self.leaf_box(co), before));
                self.lemma_seek(c, co, before);
                assert forall|i: int, l: int|
                    0 <= i < k && #[trigger] self.under_visited(s, co, i, l) implies out.dist_sq
                    <= self.leaf_distance(co, l) by {
                    if i == k - 1 {
                        assert(self.reaches(c, l));
                    }
                }
                if out != before {
                    let l = choose|l: int|
                        self.reaches(c, l) && out == #[trigger] self.record_of(co, l)
                            && self.leaf_distance(co, l) < before.dist_sq;
                    assert(self.under_visited(s, co, k - 1, l));
                    let w = (k - 1, l);
                    assert(0 <= w.0 < k && self.under_visited(s, co, w.0, w.1) && out
                        == self.record_of(co, w.1) && self.leaf_distance(co, w.1)
                        < best.dist_sq);
                }
            }
            if out == before && before != best {
                let w = choose|w: (int, int)|
                    0 <= w.0 < k - 1 && #[trigger] self.under_visited(s, co, w.0, w.1) && before
                        == self.record_of(co, w.1) && self.leaf_distance(co, w.1) < best.dist_sq;
                assert(0 <= w.0 < k);
            }
        }
    }
}

/// With no callback, `find_nearest` finds a leaf exactly where some leaf's
/// box is nearer to the point than the squared distance given, and the
/// leaf it finds is one whose box is nearest: no leaf's box is nearer.
pub proof fn law_nearest_is_nearest<E: Copy>(tree: &BVHTree<E>, co: Vec3, dist_sq: i64)
    requires
        tree.wf(),
        tree.cardinal(),
        tree.balanced(),
        tree.spanning(),
        tree.solid_leaves(),
        in_range(co),
    ensures
        tree.nearest(co, dist_sq, tree.leaf_box(co)).is_some() == exists|l: int|
            0 <= l < tree.totleaf && #[trigger] tree.leaf_distance(co, l) < dist_sq,
        tree.nearest(co, dist_sq, tree.leaf_box(co)).is_some() ==> {
            let found = tree.nearest(co, dist_sq, tree.leaf_box(co)).unwrap();
            &&& forall|l: int|
                0 <= l < tree.totleaf ==> found.dist_sq <= #[trigger] tree.leaf_distance(co, l)
            &&& exists|l: int| 0 <= l < tree.totleaf && found == #[trigger] tree.record_of(co, l)
        },
{
    let root = tree.root();
    let start = NearestData::<E> { elem_index: None, co: None, normal: None, dist_sq };
    let result = tree.nearest(co, dist_sq, tree.leaf_box(co));
    assert(tree.in_tree(root));
    assert(tree.branch_shape(root, tree.branches()));
    assert forall|l: int| 0 <= l < tree.totleaf implies box_distance(tree.bv(root), co)
        <= #[trigger] tree.leaf_distance(co, l) by {
        assert(tree.reaches(root, l));
        tree.lemma_node_nearer(root, l, co);
    }
    if box_distance(tree.bv(root), co) >= dist_sq {
        assert(result.is_none());
    } else {
        let found = tree.seek(root, co, tree.leaf_box(co), start);
        tree.lemma_seek(root, co, start);
        assert forall|l: int| 0 <= l < tree.totleaf implies found.dist_sq
            <= #[trigger] tree.leaf_distance(co, l) by {
            assert(tree.reaches(root, l));
        }
        if found != start {
            let l = choose|l: int|
                tree.reaches(root, l) && found == #[trigger] tree.record_of(co, l)
                    && tree.leaf_distance(co, l) < start.dist_sq;
            tree.lemma_node_nearer(root, l, co);
        }
    }
}

/// Whether `answer` is that of a callback that measures what each leaf
/// holds: it returns the record `measure` of the element where that is
/// nearer than the record so far, and else the record so far.
pub open spec fn measuring<E: Copy>(
    answer: spec_fn(E, NearestData<E>) -> NearestData<E>,
    measure: spec_fn(E) -> NearestData<E>,
) -> bool {
    forall|e: E, cur: NearestData<E>| #[trigger]
        answer(e, cur) == if measure(e).dist_sq < cur.dist_sq {
            measure(e)
        } else {
            cur
        }
}

impl<E: Copy> BVHTree<E> {
    /// The record that `measure` gives for the element of the leaf in slot
    /// `l`.
    pub open spec fn measured(&self, measure: spec_fn(E) -> NearestData<E>, l: int) -> NearestData<
        E,
    > {
        measure(self.elem_at(l))
    }

    /// Whether `measure` finds no leaf nearer to `co` than the leaf's box
    /// is.
    pub open spec fn beyond_boxes(&self, measure: spec_fn(E) -> NearestData<E>, co: Vec3) -> bool {
        forall|l: int|
            0 <= l < self.totleaf ==> self.leaf_distance(co, l) <= (#[trigger] self.measured(
                measure,
                l,
            )).dist_sq
    }

    /// What the search with a measuring callback leaves after a node: a
    /// record no further than the one it started with and than the
    /// measure of any leaf under the node, which is the one it started
    /// with or the measure of a nearer leaf under the node.
    pub proof fn lemma_seek_with(
        &self,
        s: int,
        co: Vec3,
        answer: spec_fn(E, NearestData<E>) -> NearestData<E>,
        measure: spec_fn(E) -> NearestData<E>,
        best: NearestData<E>,
    )
        requires
            self.wf(),
            self.cardinal(),
            self.in_tree(s),
            self.solid_leaves(),
            in_range(co),
            measuring(answer, measure),
            self.beyond_boxes(measure, co),
        ensures
            self.seek(s, co, self.leaf_with(answer), best).dist_sq <= best.dist_sq,
            forall|l: int|
                self.reaches(s, l) ==> self.seek(s, co, self.leaf_with(answer), best).dist_sq <= (
                #[trigger] self.measured(measure, l)).dist_sq,
            self.seek(s, co, self.leaf_with(answer), best) == best || exists|l: int|
                self.reaches(s, l) && self.seek(s, co, self.leaf_with(answer), best)
                    == #[trigger] self.measured(measure, l) && self.measured(measure, l).dist_sq
                    < best.dist_sq,
        decreases self.rank(s), 1nat, 0nat,
    {
        let out = self.seek(s, co, self.leaf_with(answer), best);
        if self.node(s).totnode == 0 {
            self.lemma_leaf(s);
            assert(self.reaches(s, s));
            assert(out == answer(self.elem_at(s), best));
            assert forall|l: int| self.reaches(s, l) implies out.dist_sq <= (
            #[trigger] self.measured(measure, l)).dist_sq by {
                assert(l == s);
            }
            if out != best {
                assert(out == self.measured(measure, s));
            }
        } else {
            self.lemma_branch(s);
            let m = self.node(s).totnode as nat;
            self.lemma_seek_children_with(s, co, answer, measure, m, best);
            assert forall|l: int| self.reaches(s, l) implies out.dist_sq <= (
            #[trigger] self.measured(measure, l)).dist_sq by {
                let k = choose|k: int|
                    0 <= k < self.node(s).totnode && self.rank(
                        #[trigger] self.node(s).children@[k] as int,
                    ) < self.rank(s) && self.reaches(self.node(s).children@[k] as int, l);
                let i = if self.forward(s, co) {
                    k
                } else {
                    self.node(s).totnode - 1 - k
                };
                assert(self.visit(s, co, i) == k);
                assert(self.under_visited(s, co, i, l));
            }
            if out != best {
                let w = choose|w: (int, int)|
                    0 <= w.0 < m && #[trigger] self.under_visited(s, co, w.0, w.1) && out
                        == self.measured(measure, w.1) && self.measured(measure, w.1).dist_sq
                        < best.dist_sq;
                let k = self.visit(s, co, w.0);
                self.lemma_child(s, k);
                assert(self.reaches(s, w.1));
            }
        }
    }

    /// What the search with a measuring callback leaves after the first
    /// `k` children of a node, in visiting order.
    pub proof fn lemma_seek_children_with(
        &self,
        s: int,
        co: Vec3,
        answer: spec_fn(E, NearestData<E>) -> NearestData<E>,
        measure: spec_fn(E) -> NearestData<E>,
        k: nat,
        best: NearestData<E>,
    )
        requires
            self.wf(),
            self.cardinal(),
            self.totleaf <= s < self.totleaf + self.branches(),
            self.solid_leaves(),
            in_range(co),
            measuring(answer, measure),
            self.beyond_boxes(measure, co),
            k <= self.node(s).totnode,
        ensures
            self.seek_children(s, co, self.leaf_with(answer), k, best).dist_sq <= best.dist_sq,
            forall|i: int, l: int|
                0 <= i < k && #[trigger] self.under_visited(s, co, i, l) ==> self.seek_children(
                    s,
                    co,
                    self.leaf_with(answer),
                    k,
                    best,
                ).dist_sq <= self.measured(measure, l).dist_sq,
            self.seek_children(s, co, self.leaf_with(answer), k, best) == best || exists|
                w: (int, int),
            |
                0 <= w.0 < k && #[trigger] self.under_visited(s, co, w.0, w.1)
                    && self.seek_children(s, co, self.leaf_with(answer), k, best) == self.measured(
                    measure,
                    w.1,
                ) && self.measured(measure, w.1).dist_sq < best.dist_sq,
        decreases self.rank(s), 0nat, k,
    {
        if k > 0 {
            let out = self.seek_children(s, co, self.leaf_with(answer), k, best);
            let before = self.seek_children(s, co, self.leaf_with(answer), (k - 1) as nat, best);
            self.lemma_seek_children_with(s, co, answer, measure, (k - 1) as nat, best);
            self.lemma_branch(s);
            let at = self.visit(s, co, k - 1);
            assert(0 <= at < self.node(s).totnode);
            self.lemma_child(s, at);
            let c = self.node(s).children@[at] as int;
            if box_distance(self.bv(c), co) >= before.dist_sq {
                assert(out == before);
                assert forall|i: int, l: int|
                    0 <= i < k && #[trigger] self.under_visited(s, co, i, l) implies out.dist_sq
                    <= self.measured(measure, l).dist_sq by {
                    if i == k - 1 {
                        self.lemma_node_nearer(c, l, co);
                    }
                }
            } else {
                assert(out == self.seek(c, co, self.leaf_with(answer), before));
                self.lemma_seek_with(c, co, answer, measure, before);
                assert forall|i: int, l: int|
                    0 <= i < k && #[trigger] self.under_visited(s, co, i, l) implies out.dist_sq
                    <= self.measured(measure, l).dist_sq by {
                    if i == k - 1 {
                        assert(self.reaches(c, l));
                    }
                }
                if out != before {
                    let l = choose|l: int|
                        self.reaches(c, l) && out == #[trigger] self.measured(measure, l)
                            && self.measured(measure, l).dist_sq < before.dist_sq;
                    assert(self.under_visited(s, co, k - 1, l));
                    let w = (k - 1, l);
                    assert(0 <= w.0 < k && self.under_visited(s, co, w.0, w.1) && out
                        == self.measured(measure, w.1) && self.measured(measure, w.1).dist_sq
                        < best.dist_sq);
                }
            }
            if out == before && before != best {
                let w = choose|w: (int, int)|
                    0 <= w.0 < k - 1 && #[trigger] self.under_visited(s, co, w.0, w.1) && before
                        == self.measured(measure, w.1) && self.measured(measure, w.1).dist_sq
                        < best.dist_sq;
                assert(0 <= w.0 < k);
            }
        }
    }
}

/// With a callback that measures what each leaf holds, and finds no leaf
/// nearer than its box, `find_nearest` returns the measure of a leaf that
/// is nearer than the squared distance given and than which no leaf's
/// measure is nearer. It returns nothing only where every measure that is
/// nearer than the squared distance given is no nearer than one that
/// names no element.
pub proof fn law_nearest_measure_is_nearest<E: Copy>(
    tree: &BVHTree<E>,
    co: Vec3,
    dist_sq: i64,
    answer: spec_fn(E, NearestData<E>) -> NearestData<E>,
    measure: spec_fn(E) -> NearestData<E>,
)
    requires
        tree.wf(),
        tree.cardinal(),
        tree.balanced(),
        tree.spanning(),
        tree.solid_leaves(),
        in_range(co),
        measuring(answer, measure),
        tree.beyond_boxes(measure, co),
    ensures
        tree.nearest(co, dist_sq, tree.leaf_with(answer)).is_some() ==> {
            let found = tree.nearest(co, dist_sq, tree.leaf_with(answer)).unwrap();
            &&& found.dist_sq < dist_sq
            &&& forall|l: int|
                0 <= l < tree.totleaf ==> found.dist_sq <= (#[trigger] tree.measured(
                    measure,
                    l,
                )).dist_sq
            &&& exists|l: int| 0 <= l < tree.totleaf && found == #[trigger] tree.measured(measure, l)
        },
        tree.nearest(co, dist_sq, tree.leaf_with(answer)).is_none() ==> forall|l: int|
            0 <= l < tree.totleaf && (#[trigger] tree.measured(measure, l)).dist_sq < dist_sq
                ==> exists|m: int|
                0 <= m < tree.totleaf && (#[trigger] tree.measured(measure, m)).elem_index.is_none()
                    && tree.measured(measure, m).dist_sq <= tree.measured(measure, l).dist_sq,
{
    let root = tree.root();
    let start = NearestData::<E> { elem_index: None, co: None, normal: None, dist_sq };
    let result = tree.nearest(co, dist_sq, tree.leaf_with(answer));
    assert(tree.in_tree(root));
    assert(tree.branch_shape(root, tree.branches()));
    assert forall|l: int| 0 <= l < tree.totleaf implies box_distance(tree.bv(root), co) <= (
    #[trigger] tree.measured(measure, l)).dist_sq by {
        assert(tree.reaches(root, l));
        tree.lemma_node_nearer(root, l, co);
    }
    if box_distance(tree.bv(root), co) >= dist_sq {
        assert(result.is_none());
    } else {
        let found = tree.seek(root, co, tree.leaf_with(answer), start);
        tree.lemma_seek_with(root, co, answer, measure, start);
        assert forall|l: int| 0 <= l < tree.totleaf implies found.dist_sq <= (
        #[trigger] tree.measured(measure, l)).dist_sq by {
            assert(tree.reaches(root, l));
        }
        if found != start {
            let l = choose|l: int|
                tree.reaches(root, l) && found == #[trigger] tree.measured(measure, l)
                    && tree.measured(measure, l).dist_sq < start.dist_sq;
            tree.lemma_node_nearer(root, l, co);
        }
        if result.is_none() {
            assert forall|l: int|
                0 <= l < tree.totleaf && (#[trigger] tree.measured(measure, l)).dist_sq
                    < dist_sq implies exists|m: int|
                0 <= m < tree.totleaf && (#[trigger] tree.measured(measure, m)).elem_index.is_none()
                    && tree.measured(measure, m).dist_sq <= tree.measured(measure, l).dist_sq by {
                assert(found != start);
                let m = choose|m: int|
                    tree.reaches(root, m) && found == #[trigger] tree.measured(measure, m)
                        && tree.measured(measure, m).dist_sq < start.dist_sq;
                tree.lemma_node_nearer(root, m, co);
                assert(tree.measured(measure, m).elem_index.is_none());
            }
        }
    }
}

} // verus!
