//! The implicit layout of a balanced tree: which leaves each inner node of a
//! complete `tree_type`-ary tree is responsible for, by index arithmetic
//! alone.
//!
//! Inner nodes are numbered in level order from 1, the root. The leaves of
//! the deepest level come first in the leaf array, those one level higher
//! after them.

use crate::bvh::{needed_branches, MAX_LEAVES, MAX_TREETYPE};
use vstd::prelude::*;

verus! {

/// `t` raised to the power `k`.
pub open spec fn tpow(t: int, k: nat) -> int
    decreases k,
{
    if k == 0 {
        1
    } else {
        t * tpow(t, (k - 1) as nat)
    }
}

/// The tables of the implicit layout for `totleafs` leaves.
pub struct BVHBuildHelper {
    pub totleafs: usize,
    /// Number of leaves under one node at depth N, in a full tree.
    pub leafs_per_child: [u64; 32],
    /// Number of nodes at depth N.
    pub branches_on_level: [u64; 32],
    /// Number of leaves on the deepest level.
    pub remain_leafs: usize,
}

impl BVHBuildHelper {
    /// Makes a helper of the tables given.
    pub fn new(
        totleafs: usize,
        leafs_per_child: [u64; 32],
        branches_on_level: [u64; 32],
        remain_leafs: usize,
    ) -> (r: Self)
        ensures
            r.totleafs == totleafs,
            r.leafs_per_child == leafs_per_child,
            r.branches_on_level == branches_on_level,
            r.remain_leafs == remain_leafs,
    {
        Self { totleafs, leafs_per_child, branches_on_level, remain_leafs }
    }

    /// Entry `d` of `leafs_per_child`.
    pub open spec fn lpc(&self, d: int) -> int {
        self.leafs_per_child@[d] as int
    }

    /// Entry `d` of `branches_on_level`.
    pub open spec fn bol(&self, d: int) -> int {
        self.branches_on_level@[d] as int
    }

    /// Whether the tables are those of a tree of `t` children per node whose
    /// deepest level is `h`: `t^h` is the least power of `t` that reaches
    /// `totleafs`.
    pub open spec fn table_ok(&self, t: int, h: int) -> bool {
        &&& 2 <= t <= MAX_TREETYPE
        &&& 2 <= self.totleafs <= MAX_LEAVES
        &&& 1 <= h <= 28
        &&& tpow(t, (h - 1) as nat) < self.totleafs <= tpow(t, h as nat)
        &&& forall|d: int| 0 <= d <= h ==> #[trigger] self.lpc(d) == tpow(t, (h - d) as nat)
        &&& forall|d: int| h < d < 32 ==> #[trigger] self.lpc(d) == 0
        &&& forall|d: int| 0 <= d <= h + 1 ==> #[trigger] self.bol(d) == tpow(t, d as nat)
        &&& forall|d: int| h + 1 < d < 32 ==> #[trigger] self.bol(d) == 0
        &&& self.remain_leafs == spec_remain_leafs(
            self.totleafs as int,
            tpow(t, (h - 1) as nat),
            t,
        )
    }

    /// The depth of the deepest level, for a tree of `t` children per node.
    pub open spec fn height(&self, t: int) -> int {
        choose|h: int| self.table_ok(t, h)
    }

    /// Whether the tables are those of some tree of `t` children per node.
    pub open spec fn wf(&self, t: int) -> bool {
        self.table_ok(t, self.height(t))
    }

    /// The number of leaves that do not fit on the last full level.
    pub open spec fn remain(&self) -> int {
        self.totleafs - self.lpc(1)
    }

    /// The first leaf position of node `child_index` at depth `depth - 1`.
    pub open spec fn spec_index(&self, depth: int, child_index: int) -> int {
        let min_leaf_index = child_index * self.lpc(depth - 1);
        if min_leaf_index <= self.remain_leafs {
            min_leaf_index
        } else if self.lpc(depth) != 0 {
            self.totleafs - (self.bol(depth - 1) - child_index) * self.lpc(depth)
        } else {
            self.remain_leafs as int
        }
    }
}

/// The number of nodes on the last full level that have children, given the
/// `remain` leaves that do not fit on that level.
pub open spec fn spec_nnodes(remain: int, t: int) -> int {
    (remain + t - 2) / (t - 1)
}

/// The number of leaves on the deepest level of a tree over `n` leaves whose
/// last full level has `k` nodes.
pub open spec fn spec_remain_leafs(n: int, k: int, t: int) -> int {
    (n - k) + spec_nnodes(n - k, t)
}

/// Powers of `t >= 1` are positive and ascend.
pub proof fn lemma_tpow_step(t: int, k: nat)
    requires
        1 <= t,
    ensures
        1 <= tpow(t, k),
        tpow(t, k + 1) == t * tpow(t, k),
        tpow(t, k) <= tpow(t, k + 1),
    decreases k,
{
    if k > 0 {
        lemma_tpow_step(t, (k - 1) as nat);
    }
    let a = tpow(t, k);
    assert(a <= t * a) by (nonlinear_arith)
        requires
            1 <= t,
            1 <= a,
    ;
}

/// Powers of `t >= 1` ascend with the exponent.
pub proof fn lemma_tpow_mono(t: int, a: nat, b: nat)
    requires
        1 <= t,
        a <= b,
    ensures
        tpow(t, a) <= tpow(t, b),
    decreases b - a,
{
    if a < b {
        lemma_tpow_mono(t, a, (b - 1) as nat);
        lemma_tpow_step(t, (b - 1) as nat);
    }
}

/// `t^a * t^b == t^(a + b)`.
pub proof fn lemma_tpow_add(t: int, a: nat, b: nat)
    ensures
        tpow(t, a) * tpow(t, b) == tpow(t, a + b),
    decreases a,
{
    if a == 0 {
        assert(1 * tpow(t, b) == tpow(t, b));
    } else {
        lemma_tpow_add(t, (a - 1) as nat, b);
        let x = tpow(t, (a - 1) as nat);
        let y = tpow(t, b);
        assert((t * x) * y == t * (x * y)) by (nonlinear_arith);
        assert(tpow(t, a + b) == t * tpow(t, (a - 1 + b) as nat));
    }
}

/// Powers of `t >= 2` are at least the matching power of two.
pub proof fn lemma_tpow_at_least_double(t: int, k: nat)
    requires
        2 <= t,
    ensures
        tpow(2, k) <= tpow(t, k),
    decreases k,
{
    if k > 0 {
        lemma_tpow_at_least_double(t, (k - 1) as nat);
        lemma_tpow_step(2, (k - 1) as nat);
        let a = tpow(2, (k - 1) as nat);
        let b = tpow(t, (k - 1) as nat);
        assert(2 * a <= t * b) by (nonlinear_arith)
            requires
                2 <= t,
                1 <= a <= b,
        ;
    }
}

/// Builds the layout tables for `totleafs` leaves under inner nodes of
/// `tree_type` children.
pub fn build_implicit_helper(totleafs: usize, tree_type: u8) -> (r: BVHBuildHelper)
    requires
        2 <= tree_type <= MAX_TREETYPE,
        2 <= totleafs <= MAX_LEAVES,
    ensures
        r.totleafs == totleafs,
        r.wf(tree_type as int),
{
    let t: u64 = tree_type as u64;
    let n: u64 = totleafs as u64;
    let mut leafs_per_child: [u64; 32] = [0; 32];
    let mut branches_on_level: [u64; 32] = [0; 32];
    // the smallest power of tree_type that reaches totleafs
    let mut top: u64 = 1;
    let ghost mut h: int = 0;
    proof {
        assert(1 < n * t <= 0x1000_0000 * 32) by (nonlinear_arith)
            requires
                2 <= n <= 0x1000_0000,
                2 <= t <= 32,
        ;
    }
    while top < n
        invariant
            2 <= t <= MAX_TREETYPE,
            2 <= n <= MAX_LEAVES,
            0 <= h,
            top == tpow(t as int, h as nat),
            1 <= top,
            h > 0 ==> tpow(t as int, (h - 1) as nat) < n,
            top < n * t <= 0x1000_0000 * 32,
        decreases n * t - top,
    {
        proof {
            lemma_tpow_step(t as int, h as nat);
            assert(top * t < n * t) by (nonlinear_arith)
                requires
                    top < n,
                    2 <= t,
            ;
            assert(n * t <= 0x1000_0000 * 32) by (nonlinear_arith)
                requires
                    n <= 0x1000_0000,
                    t <= 32,
            ;
            assert(top < top * t) by (nonlinear_arith)
                requires
                    1 <= top,
                    2 <= t,
            ;
            h = h + 1;
        }
        top = top * t;
    }
    proof {
        assert(h >= 1) by {
            if h == 0 {
                assert(top == 1);
            }
        }
        // the depth is bounded because powers of two outgrow MAX_LEAVES
        if h > 28 {
            lemma_tpow_at_least_double(t as int, (h - 1) as nat);
            lemma_tpow_mono(2, 28, (h - 1) as nat);
            assert(tpow(2, 28) == 0x1000_0000) by {
                reveal_with_fuel(tpow, 30);
            }
        }
    }
    leafs_per_child[0] = top;
    branches_on_level[0] = 1;
    let mut depth: usize = 1;
    while depth < 32 && leafs_per_child[depth - 1] != 0
        invariant
            2 <= t <= MAX_TREETYPE,
            1 <= h <= 28,
            1 <= depth <= 32,
            depth <= h + 2,
            forall|d: int|
                0 <= d < depth && d <= h ==> #[trigger] leafs_per_child@[d] == tpow(
                    t as int,
                    (h - d) as nat,
                ),
            forall|d: int| h < d < 32 ==> #[trigger] leafs_per_child@[d] == 0,
            forall|d: int|
                0 <= d < depth ==> #[trigger] branches_on_level@[d] == tpow(t as int, d as nat),
            forall|d: int| depth <= d < 32 ==> #[trigger] branches_on_level@[d] == 0,
            tpow(t as int, h as nat) < 0x1000_0000 * 32,
        decreases 32 - depth,
    {
        proof {
            lemma_tpow_step(t as int, (depth - 1) as nat);
            lemma_tpow_mono(t as int, (depth - 1) as nat, h as nat);
            lemma_tpow_step(t as int, h as nat);
            let b = tpow(t as int, (depth - 1) as nat);
            if depth - 1 < h {
                lemma_tpow_step(t as int, (h - depth) as nat);
                let x = tpow(t as int, (h - depth) as nat);
                assert((t * x) / (t as int) == x) by (nonlinear_arith)
                    requires
                        2 <= t,
                        0 <= x,
                ;
            } else {
                assert(leafs_per_child@[depth - 1] == 1);
                assert(1int / (t as int) == 0) by (nonlinear_arith)
                    requires
                        2 <= t,
                ;
            }
            assert(b * t <= 0x1000_0000 * 32 * 32) by (nonlinear_arith)
                requires
                    b <= 0x1000_0000 * 32,
                    0 <= b,
                    t <= 32,
            ;
        }
        let next_branches = branches_on_level[depth - 1] * t;
        let next_leafs = leafs_per_child[depth - 1] / t;
        branches_on_level[depth] = next_branches;
        leafs_per_child[depth] = next_leafs;
        depth += 1;
    }
    proof {
        lemma_tpow_step(t as int, (h - 1) as nat);
        assert(depth == h + 2) by {
            if depth < h + 2 {
                assert(leafs_per_child@[depth - 1] == tpow(t as int, (h - (depth - 1)) as nat));
                lemma_tpow_step(t as int, (h - (depth - 1)) as nat);
            }
        }
    }
    let per_child: u64 = leafs_per_child[1];
    let remain: u64 = n - per_child;
    let nnodes: u64 = (remain + t - 2) / (t - 1);
    proof {
        assert(nnodes <= remain + t - 2) by (nonlinear_arith)
            requires
                nnodes == (remain + t - 2) / ((t - 1) as int),
                1 <= t - 1,
                0 <= remain + t - 2,
        ;
    }
    let remain_leafs: usize = (remain + nnodes) as usize;
    let helper = BVHBuildHelper::new(totleafs, leafs_per_child, branches_on_level, remain_leafs);
    proof {
        assert(helper.table_ok(t as int, h));
    }
    helper
}

impl BVHBuildHelper {
    /// Returns the first leaf position of node `child_index` at depth
    /// `depth - 1`; the node's leaves end where those of its right
    /// neighbour begin.
    pub fn implicit_leafs_index(&self, depth: usize, child_index: usize) -> (r: usize)
        requires
            1 <= depth < 32,
            child_index <= self.bol(depth - 1),
            self.bol(depth - 1) * self.lpc(depth - 1) <= u64::MAX,
            self.bol(depth - 1) * self.lpc(depth as int) <= self.totleafs,
        ensures
            r == self.spec_index(depth as int, child_index as int),
    {
        let c: u64 = child_index as u64;
        let per_node: u64 = self.leafs_per_child[depth - 1];
        let below: u64 = self.leafs_per_child[depth];
        let on_level: u64 = self.branches_on_level[depth - 1];
        proof {
            assert(0 <= c * per_node <= on_level * per_node) by (nonlinear_arith)
                requires
                    0 <= c <= on_level,
                    0 <= per_node,
            ;
            assert(0 <= (on_level - c) * below <= on_level * below) by (nonlinear_arith)
                requires
                    0 <= c <= on_level,
                    0 <= below,
            ;
        }
        let min_leaf_index: u64 = c * per_node;
        if min_leaf_index <= self.remain_leafs as u64 {
            min_leaf_index as usize
        } else if below != 0 {
            (self.totleafs as u64 - (on_level - c) * below) as usize
        } else {
            self.remain_leafs
        }
    }
}

/// The position that `spec_index` takes on a level above the deepest: `c`
/// nodes to the left, each over `t * b` leaves of the deepest level while
/// these last, and over `b` leaves of the level above after that.
pub open spec fn level_index(t: int, b: int, remain: int, deepest: int, c: int) -> int {
    if c * (t * b) <= deepest {
        c * (t * b)
    } else {
        remain + c * b
    }
}

/// What the tables of a well-formed helper hold, in numbers.
pub proof fn lemma_tables(hp: BVHBuildHelper, t: int, h: int)
    requires
        hp.table_ok(t, h),
    ensures
        hp.lpc(1) == tpow(t, (h - 1) as nat),
        1 <= hp.lpc(1) < hp.totleafs <= t * hp.lpc(1),
        hp.remain() >= 1,
        hp.remain_leafs == hp.remain() + spec_nnodes(hp.remain(), t),
        (t - 1) * (spec_nnodes(hp.remain(), t) - 1) < hp.remain() <= (t - 1) * spec_nnodes(
            hp.remain(),
            t,
        ),
        1 <= spec_nnodes(hp.remain(), t) <= hp.lpc(1),
        hp.remain_leafs <= hp.totleafs,
        t * (spec_nnodes(hp.remain(), t) - 1) + 2 <= hp.remain_leafs <= t * spec_nnodes(
            hp.remain(),
            t,
        ),
{
    let k = tpow(t, (h - 1) as nat);
    lemma_tpow_step(t, (h - 1) as nat);
    assert(hp.lpc(1) == tpow(t, (h - 1) as nat));
    assert(hp.lpc(0) == tpow(t, h as nat));
    let remain = hp.remain();
    let nn = spec_nnodes(remain, t);
    let d = t - 1;
    assert(d * nn <= remain + t - 2 < d * nn + d) by (nonlinear_arith)
        requires
            nn == (remain + t - 2) / d,
            d >= 1,
    ;
    assert(d * (nn - 1) == d * nn - d) by (nonlinear_arith);
    assert(remain <= d * k) by (nonlinear_arith)
        requires
            remain == hp.totleafs - k,
            hp.totleafs <= t * k,
            d == t - 1,
    ;
    assert(nn <= k) by (nonlinear_arith)
        requires
            d * (nn - 1) < remain,
            remain <= d * k,
            d >= 1,
    ;
    assert(nn >= 1) by (nonlinear_arith)
        requires
            remain <= d * nn,
            remain >= 1,
            d >= 1,
    ;
    assert(t * (nn - 1) + 2 == d * (nn - 1) + nn + 1) by (nonlinear_arith)
        requires
            d == t - 1,
    ;
    assert(t * nn == d * nn + nn) by (nonlinear_arith)
        requires
            d == t - 1,
    ;
}

/// On every level, the nodes times the leaves under each make the same
/// totals.
pub proof fn lemma_level_products(hp: BVHBuildHelper, t: int, h: int, depth: int)
    requires
        hp.table_ok(t, h),
        1 <= depth <= h + 1,
    ensures
        hp.bol(depth - 1) * hp.lpc(depth - 1) == tpow(t, h as nat),
        tpow(t, h as nat) <= MAX_LEAVES * MAX_TREETYPE,
        depth <= h ==> hp.bol(depth - 1) * hp.lpc(depth) == hp.lpc(1),
        depth <= h ==> hp.lpc(depth - 1) == t * hp.lpc(depth) && hp.lpc(depth) >= 1,
        depth == h + 1 ==> hp.lpc(depth - 1) == 1 && hp.lpc(depth) == 0,
        hp.bol(depth) == t * hp.bol(depth - 1),
        hp.bol(depth - 1) >= 1,
{
    lemma_tables(hp, t, h);
    assert(hp.bol(depth - 1) == tpow(t, (depth - 1) as nat));
    assert(hp.lpc(depth - 1) == tpow(t, (h - (depth - 1)) as nat));
    lemma_tpow_add(t, (depth - 1) as nat, (h - (depth - 1)) as nat);
    lemma_tpow_step(t, (h - 1) as nat);
    lemma_tpow_step(t, (depth - 1) as nat);
    assert(hp.bol(depth) == tpow(t, depth as nat));
    let k = hp.lpc(1);
    assert(t * k <= MAX_LEAVES * MAX_TREETYPE) by (nonlinear_arith)
        requires
            2 <= t <= MAX_TREETYPE,
            1 <= k < MAX_LEAVES,
    ;
    if depth <= h {
        assert(hp.lpc(depth) == tpow(t, (h - depth) as nat));
        lemma_tpow_add(t, (depth - 1) as nat, (h - depth) as nat);
        lemma_tpow_step(t, (h - depth) as nat);
    } else {
        assert(hp.lpc(h) == tpow(t, 0));
    }
}

/// `spec_index` in closed form.
pub proof fn lemma_index_form(hp: BVHBuildHelper, t: int, h: int, depth: int, c: int)
    requires
        hp.table_ok(t, h),
        1 <= depth <= h + 1,
        0 <= c <= hp.bol(depth - 1),
    ensures
        depth <= h ==> hp.spec_index(depth, c) == level_index(
            t,
            hp.lpc(depth),
            hp.remain(),
            hp.remain_leafs as int,
            c,
        ),
        depth == h + 1 ==> hp.spec_index(depth, c) == if c <= hp.remain_leafs {
            c
        } else {
            hp.remain_leafs as int
        },
{
    lemma_level_products(hp, t, h, depth);
    if depth <= h {
        let b = hp.lpc(depth);
        let k = hp.bol(depth - 1);
        assert((k - c) * b == k * b - c * b) by (nonlinear_arith);
    } else {
        assert(c * 1 == c);
    }
}

/// Above the deepest level, `level_index` ascends with the node, stays
/// within the leaves, and once past the deepest leaves counts the leaves of
/// the level above.
pub proof fn lemma_level_index(
    t: int,
    b: int,
    k: int,
    n: int,
    remain: int,
    nn: int,
    deepest: int,
    c: int,
)
    requires
        2 <= t,
        1 <= b,
        1 <= k,
        remain == n - k,
        deepest == remain + nn,
        t * (nn - 1) + 2 <= deepest <= t * nn,
        1 <= nn <= k,
        0 <= c,
        c * b <= k,
    ensures
        0 <= level_index(t, b, remain, deepest, c) <= n,
        level_index(t, b, remain, deepest, c) <= level_index(t, b, remain, deepest, c + 1)
            || (c + 1) * b > k,
        c * (t * b) > deepest ==> nn <= c * b,
        c * (t * b) <= deepest ==> c * b <= nn,
{
    let x = c * b;
    assert(c * (t * b) == t * x) by (nonlinear_arith)
        requires
            x == c * b,
    ;
    assert(0 <= x) by (nonlinear_arith)
        requires
            x == c * b,
            0 <= c,
            1 <= b,
    ;
    assert(0 <= t * x) by (nonlinear_arith)
        requires
            0 <= x,
            2 <= t,
    ;
    if t * x > deepest {
        assert(x >= nn) by (nonlinear_arith)
            requires
                t * x > deepest,
                deepest >= t * (nn - 1) + 2,
                2 <= t,
        ;
    } else {
        assert(x <= nn) by (nonlinear_arith)
            requires
                t * x <= deepest,
                deepest <= t * nn,
                2 <= t,
        ;
    }
    let y = (c + 1) * b;
    assert(y == x + b) by (nonlinear_arith)
        requires
            x == c * b,
            y == (c + 1) * b,
    ;
    assert((c + 1) * (t * b) == t * y) by (nonlinear_arith)
        requires
            y == (c + 1) * b,
    ;
    assert(t * y >= t * x) by (nonlinear_arith)
        requires
            y >= x,
            2 <= t,
    ;
    if y <= k {
        if t * y > deepest && t * x <= deepest {
            assert(y >= nn) by (nonlinear_arith)
                requires
                    t * y > deepest,
                    deepest >= t * (nn - 1) + 2,
                    2 <= t,
            ;
        }
    }
}

/// Whether `first` is the number of the first inner node at depth
/// `depth - 1`, the root having number 1.
pub open spec fn level_start(t: int, depth: int, first: int) -> bool {
    (first - 1) * (t - 1) == tpow(t, (depth - 1) as nat) - 1
}

/// The number of the first inner node on the level below the one that
/// starts at `first`.
pub open spec fn next_level(t: int, first: int) -> int {
    first * t + 2 - t
}

/// The level below starts where this level's `t^(depth-1)` nodes end.
pub proof fn lemma_level_next(t: int, depth: int, first: int)
    requires
        2 <= t,
        1 <= depth,
        level_start(t, depth, first),
    ensures
        level_start(t, depth + 1, next_level(t, first)),
        next_level(t, first) - first == tpow(t, (depth - 1) as nat),
        first >= 1,
{
    let p = tpow(t, (depth - 1) as nat);
    lemma_tpow_step(t, (depth - 1) as nat);
    assert(tpow(t, depth as nat) == t * p);
    let d = t - 1;
    let m = first - 1;
    assert(m >= 0) by (nonlinear_arith)
        requires
            m * d == p - 1,
            p >= 1,
            d >= 1,
    ;
    assert((first * t + 2 - t - 1) * (t - 1) == t * p - 1) by (nonlinear_arith)
        requires
            (first - 1) * (t - 1) == p - 1,
    ;
    assert(first * t + 2 - t - first == p) by (nonlinear_arith)
        requires
            (first - 1) * (t - 1) == p - 1,
    ;
}

/// Deeper levels start at larger numbers.
pub proof fn lemma_level_order(t: int, a: int, first_a: int, b: int, first_b: int)
    requires
        2 <= t,
        1 <= a <= b,
        level_start(t, a, first_a),
        level_start(t, b, first_b),
    ensures
        first_a <= first_b,
{
    lemma_tpow_mono(t, (a - 1) as nat, (b - 1) as nat);
    let d = t - 1;
    assert(first_a <= first_b) by (nonlinear_arith)
        requires
            (first_a - 1) * d <= (first_b - 1) * d,
            d >= 1,
    ;
}

/// The inner nodes are those of the full levels and, on the last full
/// level, the first `spec_nnodes` nodes.
pub proof fn lemma_branch_count(hp: BVHBuildHelper, t: int, h: int, first: int)
    requires
        hp.table_ok(t, h),
        level_start(t, h, first),
    ensures
        needed_branches(t, hp.totleafs as int) == first - 1 + spec_nnodes(hp.remain(), t),
{
    lemma_tables(hp, t, h);
    let d = t - 1;
    let m = first - 1;
    let x = hp.remain() + t - 2;
    let n = hp.totleafs as int;
    assert(n + t - 3 == x + m * d);
    assert((x + m * d) / d == x / d + m) by (nonlinear_arith)
        requires
            d >= 1,
    ;
}

/// Along a level, the first leaf positions ascend and stay within the
/// leaves.
pub proof fn lemma_index_ascends(hp: BVHBuildHelper, t: int, h: int, depth: int, c: int)
    requires
        hp.table_ok(t, h),
        1 <= depth <= h + 1,
        0 <= c < hp.bol(depth - 1),
    ensures
        0 <= hp.spec_index(depth, c) <= hp.spec_index(depth, c + 1) <= hp.totleafs,
{
    lemma_tables(hp, t, h);
    lemma_level_products(hp, t, h, depth);
    lemma_index_form(hp, t, h, depth, c);
    lemma_index_form(hp, t, h, depth, c + 1);
    if depth <= h {
        let b = hp.lpc(depth);
        let k = hp.lpc(1);
        let w = hp.bol(depth - 1);
        let nn = spec_nnodes(hp.remain(), t);
        assert(c * b <= k && (c + 1) * b <= k) by (nonlinear_arith)
            requires
                0 <= c < w,
                w * b == k,
                b >= 1,
        ;
        lemma_level_index(t, b, k, hp.totleafs as int, hp.remain(), nn, hp.remain_leafs as int, c);
        lemma_level_index(
            t,
            b,
            k,
            hp.totleafs as int,
            hp.remain(),
            nn,
            hp.remain_leafs as int,
            c + 1,
        );
    }
}

/// A node's leaves start where those of its first child start. On the last
/// full level this holds of the nodes that have children and of the first
/// that has none.
pub proof fn lemma_index_nests(hp: BVHBuildHelper, t: int, h: int, depth: int, c: int)
    requires
        hp.table_ok(t, h),
        1 <= depth <= h,
        0 <= c <= hp.bol(depth - 1),
        depth == h ==> c <= spec_nnodes(hp.remain(), t),
    ensures
        t * c <= hp.bol(depth),
        hp.spec_index(depth + 1, t * c) == hp.spec_index(depth, c),
{
    lemma_tables(hp, t, h);
    lemma_level_products(hp, t, h, depth);
    lemma_level_products(hp, t, h, depth + 1);
    let w = hp.bol(depth - 1);
    assert(0 <= t * c <= t * w) by (nonlinear_arith)
        requires
            0 <= c <= w,
            2 <= t,
    ;
    lemma_index_form(hp, t, h, depth, c);
    lemma_index_form(hp, t, h, depth + 1, t * c);
    let b = hp.lpc(depth);
    let deepest = hp.remain_leafs as int;
    if depth < h {
        let b2 = hp.lpc(depth + 1);
        assert(b == t * b2);
        assert((t * c) * (t * b2) == c * (t * b)) by (nonlinear_arith)
            requires
                b == t * b2,
        ;
        assert((t * c) * b2 == c * b) by (nonlinear_arith)
            requires
                b == t * b2,
        ;
    } else {
        let nn = spec_nnodes(hp.remain(), t);
        assert(b == 1);
        assert(c * (t * b) == t * c) by (nonlinear_arith)
            requires
                b == 1,
        ;
        assert(c * b == c) by (nonlinear_arith)
            requires
                b == 1,
        ;
        if t * c > deepest {
            assert(c >= nn) by (nonlinear_arith)
                requires
                    t * c > deepest,
                    deepest >= t * (nn - 1) + 2,
                    2 <= t,
            ;
        }
    }
}

/// Nodes that have no children are responsible for at most one leaf: on the
/// last full level those from number `spec_nnodes` on, and every node of
/// the deepest level.
pub proof fn lemma_index_single(hp: BVHBuildHelper, t: int, h: int, depth: int, c: int)
    requires
        hp.table_ok(t, h),
        h <= depth <= h + 1,
        0 <= c < hp.bol(depth - 1),
        depth == h ==> spec_nnodes(hp.remain(), t) <= c,
    ensures
        hp.spec_index(depth, c + 1) - hp.spec_index(depth, c) <= 1,
{
    lemma_tables(hp, t, h);
    lemma_level_products(hp, t, h, depth);
    lemma_index_form(hp, t, h, depth, c);
    lemma_index_form(hp, t, h, depth, c + 1);
    if depth == h {
        let nn = spec_nnodes(hp.remain(), t);
        let deepest = hp.remain_leafs as int;
        let b = hp.lpc(depth);
        assert(b == 1);
        assert(c * (t * b) == t * c && (c + 1) * (t * b) == t * c + t) by (nonlinear_arith)
            requires
                b == 1,
        ;
        assert(c * b == c && (c + 1) * b == c + 1) by (nonlinear_arith)
            requires
                b == 1,
        ;
        assert(t * c >= t * nn) by (nonlinear_arith)
            requires
                c >= nn,
                2 <= t,
        ;
        if t * c <= deepest {
            assert(c == nn) by (nonlinear_arith)
                requires
                    t * c <= t * nn,
                    c >= nn,
                    2 <= t,
            ;
        }
        assert(hp.spec_index(depth, c) == hp.remain() + c);
        assert(hp.spec_index(depth, c + 1) == hp.remain() + c + 1);
    }
}

/// Whether `implicit_leafs_index` can compute within the machine range for
/// node `c` at depth `depth - 1`.
pub open spec fn index_safe(hp: BVHBuildHelper, depth: int, c: int) -> bool {
    &&& 1 <= depth < 32
    &&& 0 <= c <= hp.bol(depth - 1)
    &&& hp.bol(depth - 1) * hp.lpc(depth - 1) <= u64::MAX
    &&& hp.bol(depth - 1) * hp.lpc(depth) <= hp.totleafs
}

/// `implicit_leafs_index` is safe on every node of every level.
pub proof fn lemma_index_safe(hp: BVHBuildHelper, t: int, h: int, depth: int, c: int)
    requires
        hp.table_ok(t, h),
        1 <= depth <= h + 1,
        0 <= c <= hp.bol(depth - 1),
    ensures
        index_safe(hp, depth, c),
{
    lemma_tables(hp, t, h);
    lemma_level_products(hp, t, h, depth);
    if depth == h + 1 {
        assert(hp.bol(depth - 1) * hp.lpc(depth) == 0) by (nonlinear_arith)
            requires
                hp.lpc(depth) == 0,
        ;
    }
}

/// What the layout gives for inner node number `j`, on the level that
/// starts at `first`: the level is not the deepest, the node's leaves are a
/// range that its children's ranges divide in order, and a child with more
/// than one leaf is an inner node with a larger number.
pub proof fn lemma_node_layout(hp: BVHBuildHelper, t: int, h: int, depth: int, first: int, j: int)
    requires
        hp.table_ok(t, h),
        1 <= depth <= h + 1,
        level_start(t, depth, first),
        first <= j <= needed_branches(t, hp.totleafs as int),
        j < next_level(t, first),
    ensures
        depth <= h,
        0 <= j - first < hp.bol(depth - 1),
        0 <= hp.spec_index(depth, j - first) <= hp.spec_index(depth, j - first + 1)
            <= hp.totleafs,
        hp.spec_index(depth + 1, t * (j - first)) == hp.spec_index(depth, j - first),
        hp.spec_index(depth + 1, t * (j - first) + t) == hp.spec_index(depth, j - first + 1),
        forall|k: int|
            0 <= k <= t ==> #[trigger] index_safe(hp, depth + 1, t * (j - first) + k),
        index_safe(hp, depth, j - first),
        index_safe(hp, depth, j - first + 1),
        forall|k: int|
            0 <= k < t ==> hp.spec_index(depth + 1, t * (j - first) + k) <= #[trigger] hp.spec_index(
                depth + 1,
                t * (j - first) + k + 1,
            ),
        forall|k: int|
            0 <= k < t && #[trigger] hp.spec_index(depth + 1, t * (j - first) + k + 1)
                - hp.spec_index(depth + 1, t * (j - first) + k) > 1 ==> next_level(t, first) + t
                * (j - first) + k <= needed_branches(t, hp.totleafs as int),
        j * t + 2 - t == next_level(t, first) + t * (j - first),
        j < next_level(t, first) + t * (j - first),
        hp.spec_index(depth + 1, t * (j - first)) < hp.spec_index(depth + 1, t * (j - first) + 1),
        t * (j - first) + t <= hp.bol(depth as int),
{
    let c = j - first;
    let nb = needed_branches(t, hp.totleafs as int);
    let nn = spec_nnodes(hp.remain(), t);
    let next = next_level(t, first);
    lemma_tables(hp, t, h);
    lemma_level_next(t, depth, first);
    assert(hp.bol(depth - 1) == tpow(t, (depth - 1) as nat));
    // the level is not the deepest
    if depth == h + 1 {
        // first - 1 == (t^h - 1) / (t - 1) is past every inner node
        let k = hp.lpc(1);
        lemma_tpow_step(t, (h - 1) as nat);
        let d = t - 1;
        // the level above starts at some number `up`
        let up = (k - 1) / d + 1;
        // (first - 1) * d == t * k - 1, so first - 1 == (k - 1) / d + k
        assert(false) by {
            lemma_level_exists(t, h);
            let u = choose|u: int| #[trigger] level_start(t, h, u);
            lemma_branch_count(hp, t, h, u);
            lemma_level_next(t, h, u);
            assert(level_start(t, h + 1, next_level(t, u)));
            lemma_level_unique(t, h + 1, first, next_level(t, u));
        }
    }
    lemma_level_products(hp, t, h, depth);
    lemma_level_products(hp, t, h, depth + 1);
    let w = hp.bol(depth - 1);
    assert(t * c + t <= t * w) by (nonlinear_arith)
        requires
            0 <= c < w,
            2 <= t,
    ;
    assert(j * t + 2 - t == next + t * c) by (nonlinear_arith)
        requires
            c == j - first,
            next == first * t + 2 - t,
    ;
    assert(t * c >= 0) by (nonlinear_arith)
        requires
            c >= 0,
            t >= 2,
    ;
    lemma_index_ascends(hp, t, h, depth, c);
    lemma_index_safe(hp, t, h, depth, c);
    lemma_index_safe(hp, t, h, depth, c + 1);
    // on the last full level, an inner node is one of the first `nn`
    if depth == h {
        lemma_branch_count(hp, t, h, first);
        assert(c + 1 <= nn);
    }
    lemma_index_nests(hp, t, h, depth, c);
    lemma_index_nests(hp, t, h, depth, c + 1);
    assert(t * (c + 1) == t * c + t) by (nonlinear_arith);
    assert forall|k: int| 0 <= k <= t implies #[trigger] index_safe(hp, depth + 1, t * c + k) by {
        lemma_index_safe(hp, t, h, depth + 1, t * c + k);
    }
    lemma_first_child(hp, t, h, depth, c);
    assert forall|k: int| 0 <= k < t implies hp.spec_index(depth + 1, t * c + k)
        <= #[trigger] hp.spec_index(depth + 1, t * c + k + 1) by {
        lemma_index_ascends(hp, t, h, depth + 1, t * c + k);
    }
    assert forall|k: int|
        0 <= k < t && #[trigger] hp.spec_index(depth + 1, t * c + k + 1) - hp.spec_index(
            depth + 1,
            t * c + k,
        ) > 1 implies next + t * c + k <= nb by {
        if depth + 1 == h + 1 {
            lemma_index_single(hp, t, h, depth + 1, t * c + k);
        } else if depth + 1 == h {
            lemma_branch_count(hp, t, h, next);
            if t * c + k >= nn {
                lemma_index_single(hp, t, h, depth + 1, t * c + k);
            }
        } else {
            lemma_level_next(t, depth + 1, next);
            lemma_level_exists(t, h);
            let u = choose|u: int| #[trigger] level_start(t, h, u);
            lemma_level_order(t, depth + 2, next_level(t, next), h, u);
            lemma_branch_count(hp, t, h, u);
            assert(hp.bol(depth) == next_level(t, next) - next);
        }
    }
}

/// Every level starts at some number.
pub proof fn lemma_level_exists(t: int, depth: int)
    requires
        2 <= t,
        1 <= depth,
    ensures
        exists|first: int| #[trigger] level_start(t, depth, first),
    decreases depth,
{
    if depth == 1 {
        assert(level_start(t, 1, 1)) by {
            assert(tpow(t, 0) == 1);
            assert((1 - 1) * (t - 1) == 0) by (nonlinear_arith);
        }
    } else {
        lemma_level_exists(t, depth - 1);
        let u = choose|u: int| #[trigger] level_start(t, depth - 1, u);
        lemma_level_next(t, depth - 1, u);
        assert(level_start(t, depth, next_level(t, u)));
    }
}

/// A level starts at one number only.
pub proof fn lemma_level_unique(t: int, depth: int, a: int, b: int)
    requires
        2 <= t,
        1 <= depth,
        level_start(t, depth, a),
        level_start(t, depth, b),
    ensures
        a == b,
{
    let d = t - 1;
    assert(a == b) by (nonlinear_arith)
        requires
            (a - 1) * d == (b - 1) * d,
            d >= 1,
    ;
}

/// Along a level, the first leaf position of a node is at most that of any
/// node to its right.
pub proof fn lemma_index_mono(hp: BVHBuildHelper, t: int, h: int, depth: int, c: int, c2: int)
    requires
        hp.table_ok(t, h),
        1 <= depth <= h + 1,
        0 <= c <= c2 <= hp.bol(depth - 1),
    ensures
        0 <= hp.spec_index(depth, c) <= hp.spec_index(depth, c2) <= hp.totleafs,
    decreases c2 - c,
{
    if c < c2 {
        lemma_index_mono(hp, t, h, depth, c, c2 - 1);
        lemma_index_ascends(hp, t, h, depth, c2 - 1);
    } else if c > 0 {
        lemma_index_ascends(hp, t, h, depth, c - 1);
    } else {
        lemma_level_products(hp, t, h, depth);
        lemma_index_ascends(hp, t, h, depth, 0);
    }
}

/// The first child of a node that has children is responsible for at least
/// one leaf.
pub proof fn lemma_first_child(hp: BVHBuildHelper, t: int, h: int, depth: int, c: int)
    requires
        hp.table_ok(t, h),
        1 <= depth <= h,
        0 <= c < hp.bol(depth - 1),
        depth == h ==> c < spec_nnodes(hp.remain(), t),
    ensures
        hp.spec_index(depth + 1, t * c) < hp.spec_index(depth + 1, t * c + 1),
{
    lemma_tables(hp, t, h);
    lemma_level_products(hp, t, h, depth);
    lemma_level_products(hp, t, h, depth + 1);
    let w = hp.bol(depth - 1);
    assert(0 <= t * c && t * c + 1 <= t * w) by (nonlinear_arith)
        requires
            0 <= c < w,
            2 <= t,
    ;
    lemma_index_form(hp, t, h, depth + 1, t * c);
    lemma_index_form(hp, t, h, depth + 1, t * c + 1);
    let nn = spec_nnodes(hp.remain(), t);
    let deepest = hp.remain_leafs as int;
    let cc = t * c;
    if depth < h {
        let b = hp.lpc(depth + 1);
        let x = cc * b;
        let y = (cc + 1) * b;
        assert(y == x + b) by (nonlinear_arith)
            requires
                x == cc * b,
                y == (cc + 1) * b,
        ;
        assert(cc * (t * b) == t * x) by (nonlinear_arith)
            requires
                x == cc * b,
        ;
        assert((cc + 1) * (t * b) == t * y) by (nonlinear_arith)
            requires
                y == (cc + 1) * b,
        ;
        assert(t * y == t * x + t * b) by (nonlinear_arith)
            requires
                y == x + b,
        ;
        assert(t * b >= 2) by (nonlinear_arith)
            requires
                t >= 2,
                b >= 1,
        ;
        if t * x <= deepest && t * y > deepest {
            // the step from the deepest leaves to those above
            assert(y >= nn) by (nonlinear_arith)
                requires
                    t * y > deepest,
                    deepest >= t * (nn - 1) + 2,
                    2 <= t,
            ;
            if hp.remain() + y <= t * x {
                assert(false) by (nonlinear_arith)
                    requires
                        hp.remain() + y <= t * x,
                        t * x <= deepest,
                        deepest == hp.remain() + nn,
                        y >= nn,
                        y == x + b,
                        b >= 1,
                        deepest >= t * (nn - 1) + 2,
                        deepest <= t * nn,
                        2 <= t,
                        t * y == t * x + t * b,
                ;
            }
        }
    } else {
        assert(cc <= t * (nn - 1)) by (nonlinear_arith)
            requires
                cc == t * c,
                c <= nn - 1,
                2 <= t,
        ;
    }
}

/// The root is responsible for all the leaves.
pub proof fn lemma_root_range(hp: BVHBuildHelper, t: int, h: int)
    requires
        hp.table_ok(t, h),
    ensures
        hp.spec_index(1, 0) == 0,
        hp.spec_index(1, 1) == hp.totleafs,
        level_start(t, 1, 1),
        next_level(t, 1) == 2,
        1 <= needed_branches(t, hp.totleafs as int),
{
    lemma_tables(hp, t, h);
    lemma_level_products(hp, t, h, 1);
    assert(hp.bol(0) == tpow(t, 0));
    assert(hp.lpc(0) == tpow(t, h as nat));
    assert(0 * hp.lpc(0) == 0);
    assert(1 * hp.lpc(0) == hp.lpc(0));
    assert((hp.bol(0) - 1) * hp.lpc(1) == 0) by (nonlinear_arith)
        requires
            hp.bol(0) == 1,
    ;
    assert((1 - 1) * (t - 1) == 0) by (nonlinear_arith);
    let n = hp.totleafs as int;
    let d = t - 1;
    assert((n + t - 3) / d >= 1) by (nonlinear_arith)
        requires
            n >= 2,
            d == t - 1,
            d >= 1,
    ;
}

/// Above the deepest level, every node is responsible for at least one
/// leaf.
pub proof fn lemma_index_strict(hp: BVHBuildHelper, t: int, h: int, depth: int, c: int)
    requires
        hp.table_ok(t, h),
        1 <= depth <= h,
        0 <= c < hp.bol(depth - 1),
    ensures
        hp.spec_index(depth, c) < hp.spec_index(depth, c + 1),
{
    lemma_tables(hp, t, h);
    lemma_level_products(hp, t, h, depth);
    lemma_index_form(hp, t, h, depth, c);
    lemma_index_form(hp, t, h, depth, c + 1);
    let nn = spec_nnodes(hp.remain(), t);
    let deepest = hp.remain_leafs as int;
    let b = hp.lpc(depth);
    let x = c * b;
    let y = (c + 1) * b;
    assert(y == x + b) by (nonlinear_arith)
        requires
            x == c * b,
            y == (c + 1) * b,
    ;
    assert(c * (t * b) == t * x) by (nonlinear_arith)
        requires
            x == c * b,
    ;
    assert((c + 1) * (t * b) == t * y) by (nonlinear_arith)
        requires
            y == (c + 1) * b,
    ;
    assert(t * y == t * x + t * b) by (nonlinear_arith)
        requires
            y == x + b,
    ;
    assert(t * b >= 2) by (nonlinear_arith)
        requires
            t >= 2,
            b >= 1,
    ;
    if t * x <= deepest && t * y > deepest {
        assert(y >= nn) by (nonlinear_arith)
            requires
                t * y > deepest,
                deepest >= t * (nn - 1) + 2,
                2 <= t,
        ;
        if hp.remain() + y <= t * x {
            assert(false) by (nonlinear_arith)
                requires
                    hp.remain() + y <= t * x,
                    t * x <= deepest,
                    deepest == hp.remain() + nn,
                    y >= nn,
                    y == x + b,
                    b >= 1,
                    deepest >= t * (nn - 1) + 2,
                    deepest <= t * nn,
                    2 <= t,
                    t * y == t * x + t * b,
            ;
        }
    }
}

/// Among the children of a node, those without leaves come last: from the
/// first child without leaves on, no child has any.
pub proof fn lemma_children_tail(hp: BVHBuildHelper, t: int, h: int, depth: int, c: int, m: int)
    requires
        hp.table_ok(t, h),
        1 <= depth <= h,
        0 <= c < hp.bol(depth - 1),
        0 <= m < t,
        hp.spec_index(depth + 1, t * c + m + 1) == hp.spec_index(depth + 1, t * c + m),
    ensures
        hp.spec_index(depth + 1, t * c + t) == hp.spec_index(depth + 1, t * c + m),
{
    lemma_tables(hp, t, h);
    lemma_level_products(hp, t, h, depth);
    lemma_level_products(hp, t, h, depth + 1);
    let w = hp.bol(depth - 1);
    assert(0 <= t * c && t * c + t <= t * w) by (nonlinear_arith)
        requires
            0 <= c < w,
            2 <= t,
    ;
    if depth + 1 <= h {
        lemma_index_strict(hp, t, h, depth + 1, t * c + m);
    } else {
        lemma_index_form(hp, t, h, depth + 1, t * c + m);
        lemma_index_form(hp, t, h, depth + 1, t * c + m + 1);
        lemma_index_form(hp, t, h, depth + 1, t * c + t);
    }
}

/// A leaf position within the leaves of the first `m` children of a node
/// is within the leaves of one of them.
pub proof fn lemma_find_child(
    hp: BVHBuildHelper,
    t: int,
    h: int,
    depth: int,
    first_child: int,
    m: int,
    p: int,
) -> (k: int)
    requires
        hp.table_ok(t, h),
        1 <= depth <= h + 1,
        0 <= first_child,
        0 <= m,
        first_child + m <= hp.bol(depth - 1),
        hp.spec_index(depth, first_child) <= p < hp.spec_index(depth, first_child + m),
    ensures
        0 <= k < m,
        hp.spec_index(depth, first_child + k) <= p < hp.spec_index(depth, first_child + k + 1),
    decreases m,
{
    if m == 0 {
        0
    } else if p >= hp.spec_index(depth, first_child + m - 1) {
        m - 1
    } else {
        lemma_find_child(hp, t, h, depth, first_child, m - 1, p)
    }
}

/// The number of the first inner node at depth `depth - 1`.
pub open spec fn level_first(t: int, depth: int) -> int
    decreases depth,
{
    if depth <= 1 {
        1
    } else {
        next_level(t, level_first(t, depth - 1))
    }
}

/// `level_first` is where each level starts.
pub proof fn lemma_level_first(t: int, depth: int)
    requires
        2 <= t,
        1 <= depth,
    ensures
        level_start(t, depth, level_first(t, depth)),
    decreases depth,
{
    if depth == 1 {
        assert(tpow(t, 0) == 1);
        assert((1 - 1) * (t - 1) == 0) by (nonlinear_arith);
    } else {
        lemma_level_first(t, depth - 1);
        lemma_level_next(t, depth - 1, level_first(t, depth - 1));
    }
}

/// A number lies on one level only.
pub proof fn lemma_level_of(t: int, depth: int, first: int, other: int, x: int)
    requires
        2 <= t,
        1 <= depth,
        1 <= other,
        level_start(t, depth, first),
        first <= x < next_level(t, first),
        level_first(t, other) <= x < next_level(t, level_first(t, other)),
    ensures
        other == depth,
        first == level_first(t, depth),
{
    lemma_level_first(t, other);
    lemma_level_first(t, depth);
    lemma_level_unique(t, depth, first, level_first(t, depth));
    if other < depth {
        lemma_level_next(t, other, level_first(t, other));
        lemma_level_order(t, other + 1, next_level(t, level_first(t, other)), depth, first);
    } else if depth < other {
        lemma_level_next(t, depth, first);
        lemma_level_order(t, depth + 1, next_level(t, first), other, level_first(t, other));
    }
}

/// An inner node is responsible for at least two leaves.
pub proof fn lemma_branch_has_two(hp: BVHBuildHelper, t: int, h: int, depth: int, first: int, j: int)
    requires
        hp.table_ok(t, h),
        1 <= depth <= h + 1,
        level_start(t, depth, first),
        first <= j <= needed_branches(t, hp.totleafs as int),
        j < next_level(t, first),
    ensures
        hp.spec_index(depth, j - first + 1) - hp.spec_index(depth, j - first) >= 2,
{
    let c = j - first;
    lemma_node_layout(hp, t, h, depth, first, j);
    lemma_tables(hp, t, h);
    lemma_level_products(hp, t, h, depth);
    lemma_level_products(hp, t, h, depth + 1);
    let w = hp.bol(depth - 1);
    assert(0 <= t * c && t * c + 2 <= t * w) by (nonlinear_arith)
        requires
            0 <= c < w,
            2 <= t,
    ;
    lemma_index_mono(hp, t, h, depth + 1, t * c + 2, t * c + t);
    if depth + 1 <= h {
        lemma_index_strict(hp, t, h, depth + 1, t * c);
        lemma_index_strict(hp, t, h, depth + 1, t * c + 1);
    } else {
        lemma_level_next(t, depth, first);
        lemma_branch_count(hp, t, h, first);
        let nn = spec_nnodes(hp.remain(), t);
        assert(c <= nn - 1);
        assert(t * c + 2 <= t * (nn - 1) + 2) by (nonlinear_arith)
            requires
                c <= nn - 1,
                2 <= t,
        ;
        lemma_index_form(hp, t, h, depth + 1, t * c);
        lemma_index_form(hp, t, h, depth + 1, t * c + 2);
    }
}

} // verus!
