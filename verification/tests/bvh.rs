use quick_renderer::bvh::inspect::BVHParts;
use quick_renderer::bvh::nearest::NearestData;
use quick_renderer::bvh::ratio::Ratio;
use quick_renderer::bvh::ray::{ray_hit, RayCastData, RayHitData, RayHitOptionalData};
use quick_renderer::bvh::store::{BVHNode, UNKNOWN};
use quick_renderer::bvh::{implicit_needed_branches, BVHError, BVHTree, BVHTreeOverlap};
use quick_renderer::vector::Vec3;

fn bv_of(bvh: &BVHTree<usize>, slot: usize) -> Vec<i64> {
    bvh.node_array.get_unknown_gen(slot).unwrap().0.bv.clone()
}

fn children_of(bvh: &BVHTree<usize>, slot: usize) -> Vec<usize> {
    let node = bvh.node_array.get_unknown_gen(slot).unwrap().0;
    node.children[..node.totnode as usize].to_vec()
}

fn totnode_of(bvh: &BVHTree<usize>, slot: usize) -> u8 {
    bvh.node_array.get_unknown_gen(slot).unwrap().0.totnode
}

/// A small generator of repeatable coordinates.
struct Lcg(u64);

impl Lcg {
    fn next(&mut self, span: i64) -> i64 {
        self.0 = self
            .0
            .wrapping_mul(6364136223846793005)
            .wrapping_add(1442695040888963407);
        ((self.0 >> 33) as i64) % (2 * span + 1) - span
    }
}

fn scattered(count: usize, tree_type: u8, axis: u8, seed: u64) -> BVHTree<usize> {
    let mut rng = Lcg(seed);
    let mut bvh = BVHTree::<usize>::new(count, 2, tree_type, axis);
    for i in 0..count {
        let x = rng.next(1000);
        let y = rng.next(1000);
        let z = rng.next(1000);
        let dx = rng.next(30);
        let dy = rng.next(30);
        let dz = rng.next(30);
        bvh.insert(
            i,
            &[Vec3::new(x, y, z), Vec3::new(x + dx, y + dy, z + dz)],
        );
    }
    bvh.balance();
    bvh
}

/// Collects the leaves under `slot`, and checks on the way that every
/// inner node contains its children on the active axes.
fn leaves_under(bvh: &BVHTree<usize>, slot: usize, out: &mut Vec<usize>) {
    if totnode_of(bvh, slot) == 0 {
        assert!(slot < bvh.totleaf);
        out.push(slot);
        return;
    }
    let outer = bv_of(bvh, slot);
    for child in children_of(bvh, slot) {
        assert_ne!(child, UNKNOWN);
        let inner = bv_of(bvh, child);
        // the active axes stand from the first entry on
        for at in 0..(bvh.stop_axis - bvh.start_axis) as usize {
            assert!(outer[2 * at] <= inner[2 * at]);
            assert!(inner[2 * at + 1] <= outer[2 * at + 1]);
        }
        leaves_under(bvh, child, out);
    }
}

#[test]
fn bvh_insert() {
    let mut bvh = BVHTree::<usize>::new(1, 1, 3, 6);
    bvh.insert(0, &[Vec3::new(-1000, 0, 0), Vec3::new(1000, 0, 0)]);
    bvh.balance();
    assert_eq!(bvh.nodes.len(), bvh.node_array.len());
    assert_eq!(bvh.nodes.len(), 4);
    assert_eq!(bv_of(&bvh, 0).len(), 6);
    assert_eq!(bv_of(&bvh, 0), vec![-1001, 1001, -1, 1, -1, 1]);
}

#[test]
fn bvh_insert_2() {
    let mut bvh = BVHTree::<usize>::new(5, 1, 4, 6);
    bvh.insert(0, &[Vec3::new(-1000, 0, 0), Vec3::new(1000, 0, 0)]);
    bvh.insert(1, &[Vec3::new(0, -1000, 0), Vec3::new(0, 1000, 0)]);
    bvh.insert(2, &[Vec3::new(0, 0, -1000), Vec3::new(0, 0, 1000)]);
    bvh.balance();
    assert_eq!(bvh.nodes.len(), bvh.node_array.len());
    assert_eq!(bvh.nodes.len(), 11);
    assert_eq!(bv_of(&bvh, 0).len(), 6);
    let root_index = bvh.nodes[bvh.totleaf];
    let root = bvh.node_array.get_unknown_gen(root_index).unwrap().0;
    assert_eq!(root.bv, vec![-1001, 1001, -1001, 1001, -1001, 1001]);
    // the root is widest along z, later axes winning ties, and the leaf
    // with the least lower end on z comes first
    assert_eq!(root.main_axis, 2);
    assert_eq!(
        bv_of(&bvh, root.children[0]),
        vec![-1, 1, -1, 1, -1001, 1001]
    );
    assert_eq!(
        bv_of(&bvh, root.children[1]),
        vec![-1001, 1001, -1, 1, -1, 1]
    );
    assert_eq!(
        bv_of(&bvh, root.children[2]),
        vec![-1, 1, -1001, 1001, -1, 1]
    );
}

#[test]
fn new_sizes_the_store_and_clamps_epsilon() {
    let bvh = BVHTree::<usize>::new(10, 0, 4, 8);
    assert_eq!(bvh.epsilon, 1);
    assert_eq!(bvh.nodes.len(), 10 + 3 + 4);
    assert_eq!(bvh.node_count(), 17);
    assert_eq!(bvh.node_array.len(), 17);
    assert_eq!((bvh.start_axis, bvh.stop_axis), (0, 4));
    assert!(bvh.nodes.iter().all(|&h| h == UNKNOWN));
    for slot in 0..17 {
        let node = bvh.node_array.get_unknown_gen(slot).unwrap().0;
        assert_eq!(node.bv, vec![0; 8]);
        assert_eq!(node.children, vec![UNKNOWN; 4]);
        assert!(node.elem_index.is_none());
    }
    let keeps = BVHTree::<usize>::new(1, 7, 2, 6);
    assert_eq!(keeps.epsilon, 7);
}

#[test]
fn new_maps_every_axis_count() {
    let ranges = [(26u8, 0u8, 13u8), (18, 7, 13), (14, 0, 7), (8, 0, 4), (6, 0, 3)];
    for (axis, start, stop) in ranges {
        let bvh = BVHTree::<usize>::new(2, 1, 2, axis);
        assert_eq!((bvh.start_axis, bvh.stop_axis, bvh.axis), (start, stop, axis));
    }
}

#[test]
fn needed_branches_values() {
    assert_eq!(implicit_needed_branches(2, 1), 1);
    assert_eq!(implicit_needed_branches(3, 1), 0);
    assert_eq!(implicit_needed_branches(4, 5), 2);
    assert_eq!(implicit_needed_branches(2, 8), 7);
    assert_eq!(implicit_needed_branches(4, 16), 5);
    assert_eq!(implicit_needed_branches(32, 1000), 33);
    assert_eq!(implicit_needed_branches(2, 0), 1);
    assert_eq!(implicit_needed_branches(2, usize::MAX - 2), usize::MAX - 3);
    assert_eq!(implicit_needed_branches(32, usize::MAX - 32), (usize::MAX - 3) / 31);
}

#[test]
fn leaf_bounds_are_the_hull_widened_by_epsilon() {
    let mut bvh = BVHTree::<usize>::new(2, 3, 2, 26);
    let points = [Vec3::new(5, -7, 2), Vec3::new(-4, 9, 1), Vec3::new(0, 0, -6)];
    bvh.insert(42, &points);
    let axes: [(i64, i64, i64); 13] = [
        (1, 0, 0),
        (0, 1, 0),
        (0, 0, 1),
        (1, 1, 1),
        (1, -1, 1),
        (1, 1, -1),
        (1, -1, -1),
        (1, 1, 0),
        (1, 0, 1),
        (0, 1, 1),
        (1, -1, 0),
        (1, 0, -1),
        (0, 1, -1),
    ];
    let bv = bv_of(&bvh, 0);
    assert_eq!(bv.len(), 26);
    for (a, d) in axes.iter().enumerate() {
        let projections: Vec<i64> = points
            .iter()
            .map(|p| p.x * d.0 + p.y * d.1 + p.z * d.2)
            .collect();
        let low = *projections.iter().min().unwrap();
        let high = *projections.iter().max().unwrap();
        assert_eq!(bv[2 * a], low - 3);
        assert_eq!(bv[2 * a + 1], high + 3);
        for t in projections {
            assert!(bv[2 * a] + 3 <= t && t <= bv[2 * a + 1] - 3);
        }
    }
    assert_eq!(bvh.totleaf, 1);
    assert_eq!(bvh.elems, vec![42]);
}

#[test]
fn insert_without_points_leaves_the_empty_interval() {
    let mut bvh = BVHTree::<usize>::new(1, 1, 2, 6);
    bvh.insert(0, &[]);
    let empty = 0x1000_0000i64;
    assert_eq!(
        bv_of(&bvh, 0),
        vec![empty - 1, -empty + 1, empty - 1, -empty + 1, empty - 1, -empty + 1]
    );
}

#[test]
fn inner_nodes_contain_their_children() {
    for (count, tree_type, axis) in [
        (2usize, 2u8, 6u8),
        (3, 2, 8),
        (7, 3, 14),
        (16, 4, 26),
        (17, 4, 6),
        (64, 8, 6),
        (100, 2, 8),
        (257, 3, 6),
        (500, 32, 26),
        (33, 32, 6),
    ] {
        let bvh = scattered(count, tree_type, axis, count as u64 * 31 + tree_type as u64);
        assert_eq!(bvh.totleaf, count);
        assert_eq!(bvh.totbranch, implicit_needed_branches(tree_type, count));
        let root = bvh.nodes[bvh.totleaf];
        assert_eq!(root, bvh.totleaf);
        let mut leaves = Vec::new();
        leaves_under(&bvh, root, &mut leaves);
        leaves.sort();
        assert_eq!(leaves, (0..count).collect::<Vec<usize>>());
        let mut handles = bvh.nodes[..count].to_vec();
        handles.sort();
        assert_eq!(handles, (0..count).collect::<Vec<usize>>());
        for i in 0..bvh.totbranch {
            assert_eq!(bvh.nodes[count + i], count + i);
            let n = totnode_of(&bvh, count + i);
            assert!(1 <= n && n <= tree_type);
            // each inner node is the union of its children, and records
            // the axis on which it is widest
            let bv = bv_of(&bvh, count + i);
            let kids = children_of(&bvh, count + i);
            for a in bvh.start_axis as usize..bvh.stop_axis as usize {
                let low = kids.iter().map(|&c| bv_of(&bvh, c)[2 * a]).min().unwrap();
                let high = kids
                    .iter()
                    .map(|&c| bv_of(&bvh, c)[2 * a + 1])
                    .max()
                    .unwrap();
                assert_eq!(bv[2 * a], low);
                assert_eq!(bv[2 * a + 1], high);
            }
            let widths = [bv[1] - bv[0], bv[3] - bv[2], bv[5] - bv[4]];
            let widest = if widths[0] > widths[1] {
                if widths[0] > widths[2] {
                    0
                } else {
                    2
                }
            } else if widths[1] > widths[2] {
                1
            } else {
                2
            };
            let node = bvh.node_array.get_unknown_gen(count + i).unwrap().0;
            assert_eq!(node.main_axis, widest);
            for &c in &kids {
                assert_eq!(
                    bvh.node_array.get_unknown_gen(c).unwrap().0.parent,
                    Some(count + i)
                );
            }
        }
        // the root is the child of no node
        assert!(bvh
            .node_array
            .get_unknown_gen(count)
            .unwrap()
            .0
            .parent
            .is_none());
    }
}

#[test]
fn root_is_the_union_of_the_leaves() {
    let bvh = scattered(40, 4, 8, 9);
    let root = bv_of(&bvh, bvh.totleaf);
    for a in 0..4 {
        let low = (0..40).map(|s| bv_of(&bvh, s)[2 * a]).min().unwrap();
        let high = (0..40).map(|s| bv_of(&bvh, s)[2 * a + 1]).max().unwrap();
        assert_eq!(root[2 * a], low);
        assert_eq!(root[2 * a + 1], high);
    }
    let (low, high) = bvh.get_min_max_bounds();
    assert_eq!(low, Vec3::new(root[0], root[2], root[4]));
    assert_eq!(high, Vec3::new(root[1], root[3], root[5]));
}

#[test]
fn leaf_and_branch_counts() {
    let mut bvh = BVHTree::<usize>::new(9, 1, 3, 6);
    for i in 0..9 {
        bvh.insert(i, &[Vec3::new(i as i64 * 10, 0, 0)]);
        assert_eq!(bvh.totleaf, i + 1);
        assert_eq!(bvh.totbranch, 0);
    }
    bvh.balance();
    assert_eq!(bvh.totleaf, 9);
    assert_eq!(bvh.totbranch, 4);
    assert_eq!(bvh.totbranch, implicit_needed_branches(3, 9));
}

#[test]
fn balance_of_an_empty_tree_changes_nothing() {
    let mut bvh = BVHTree::<usize>::new(3, 1, 2, 6);
    bvh.balance();
    assert_eq!(bvh.totleaf, 0);
    assert_eq!(bvh.totbranch, 0);
    assert!(bvh.nodes.iter().all(|&h| h == UNKNOWN));
    assert!(bvh.overlap::<fn(usize, usize) -> bool>(&bvh, None).is_none());
    assert!(bvh.find_nearest_no_callback(Vec3::new(0, 0, 0), 100).is_none());
    assert!(bvh
        .ray_cast_no_callback(Vec3::new(0, 0, 0), Vec3::new(1, 0, 0))
        .is_none());
}

#[test]
fn single_leaf_gets_a_root() {
    let mut two = BVHTree::<usize>::new(1, 1, 2, 6);
    two.insert(5, &[Vec3::new(1, 2, 3)]);
    two.balance();
    assert_eq!(two.totbranch, 1);
    assert_eq!(two.nodes[two.totleaf], 1);
    assert_eq!(totnode_of(&two, 1), 1);
    assert_eq!(children_of(&two, 1), vec![0]);
    assert_eq!(bv_of(&two, 1), vec![0, 2, 1, 3, 2, 4]);
    assert_eq!(
        two.node_array.get_unknown_gen(0).unwrap().0.parent,
        Some(1)
    );
    assert!(two.node_array.get_unknown_gen(1).unwrap().0.parent.is_none());

    let mut three = BVHTree::<usize>::new(1, 1, 3, 6);
    three.insert(5, &[Vec3::new(1, 2, 3)]);
    three.balance();
    assert_eq!(three.totbranch, 0);
    assert_eq!(three.nodes[three.totleaf], 1);
    assert_eq!(totnode_of(&three, 1), 1);
    assert_eq!(children_of(&three, 1), vec![0]);
}

fn unordered_pairs(found: &[BVHTreeOverlap<usize>]) -> Vec<(usize, usize)> {
    let mut pairs: Vec<(usize, usize)> = found
        .iter()
        .map(|o| {
            if o.index_1 < o.index_2 {
                (o.index_1, o.index_2)
            } else {
                (o.index_2, o.index_1)
            }
        })
        .collect();
    pairs.sort();
    pairs.dedup();
    pairs
}

#[test]
fn two_segments() {
    let mut bvh = BVHTree::<usize>::new(2, 1, 3, 6);
    bvh.insert(0, &[Vec3::new(-1000, 0, 0), Vec3::new(1000, 0, 0)]);
    bvh.insert(1, &[Vec3::new(0, -1000, 0), Vec3::new(0, 1000, 0)]);
    bvh.balance();
    let root = bvh.nodes[bvh.totleaf];
    assert_eq!(bv_of(&bvh, root), vec![-1001, 1001, -1001, 1001, -1, 1]);
    let found = bvh
        .overlap::<fn(usize, usize) -> bool>(&bvh, None)
        .unwrap();
    assert_eq!(unordered_pairs(&found), vec![(0, 1)]);
    assert!(found.iter().all(|o| o.index_1 != o.index_2));
}

#[test]
fn overlap_is_symmetric_and_leaves_out_self() {
    let a = scattered(60, 4, 8, 1);
    let b = scattered(45, 3, 8, 2);
    let ab = a.overlap::<fn(usize, usize) -> bool>(&b, None);
    let ba = b.overlap::<fn(usize, usize) -> bool>(&a, None);
    let mut forward: Vec<(usize, usize)> = ab
        .unwrap_or_default()
        .iter()
        .map(|o| (o.index_1, o.index_2))
        .collect();
    let mut backward: Vec<(usize, usize)> = ba
        .unwrap_or_default()
        .iter()
        .map(|o| (o.index_2, o.index_1))
        .collect();
    forward.sort();
    backward.sort();
    assert_eq!(forward, backward);
    // what is reported is what a test of every pair of leaves finds
    let mut expected = Vec::new();
    for i in 0..60 {
        for j in 0..45 {
            let x = bv_of(&a, i);
            let y = bv_of(&b, j);
            let meet = (0..4).all(|k| x[2 * k] <= y[2 * k + 1] && y[2 * k] <= x[2 * k + 1]);
            if meet && i != j {
                expected.push((i, j));
            }
        }
    }
    assert_eq!(forward, expected);

    let own = a
        .overlap::<fn(usize, usize) -> bool>(&a, None)
        .unwrap_or_default();
    assert!(own.iter().all(|o| o.index_1 != o.index_2));
}

#[test]
fn overlap_callback_filters() {
    let a = scattered(60, 4, 8, 1);
    let all = a
        .overlap::<fn(usize, usize) -> bool>(&a, None)
        .unwrap_or_default();
    let keep = |x: usize, y: usize| x < y;
    let kept = a.overlap(&a, Some(&keep)).unwrap_or_default();
    let expected: Vec<(usize, usize)> = all
        .iter()
        .map(|o| (o.index_1, o.index_2))
        .filter(|p| p.0 < p.1)
        .collect();
    let got: Vec<(usize, usize)> = kept.iter().map(|o| (o.index_1, o.index_2)).collect();
    assert_eq!(got, expected);
    let none = |_: usize, _: usize| false;
    assert!(a.overlap(&a, Some(&none)).is_none());
}

#[test]
fn overlap_of_trees_apart_is_none() {
    let mut a = BVHTree::<usize>::new(2, 1, 2, 6);
    a.insert(0, &[Vec3::new(0, 0, 0)]);
    a.insert(1, &[Vec3::new(5, 0, 0)]);
    a.balance();
    let mut b = BVHTree::<usize>::new(2, 1, 2, 6);
    b.insert(0, &[Vec3::new(100, 0, 0)]);
    b.insert(1, &[Vec3::new(105, 0, 0)]);
    b.balance();
    assert!(a.overlap::<fn(usize, usize) -> bool>(&b, None).is_none());
}

fn row_of_boxes() -> BVHTree<usize> {
    // boxes of side 2 around x = 10, 20, ..., 80
    let mut bvh = BVHTree::<usize>::new(8, 1, 2, 6);
    for i in 0..8usize {
        let x = 10 * (i as i64 + 1);
        bvh.insert(
            i + 100,
            &[Vec3::new(x - 1, -1, -1), Vec3::new(x + 1, 1, 1)],
        );
    }
    bvh.balance();
    bvh
}

#[test]
fn ray_cast_hits_the_first_box() {
    let bvh = row_of_boxes();
    let hit = bvh
        .ray_cast_no_callback(Vec3::new(0, 0, 0), Vec3::new(1, 0, 0))
        .unwrap();
    let data = hit.data.unwrap();
    assert_eq!(data.elem_index, 100);
    // the box starts at 9 and is widened by 1
    assert_eq!(hit.dist, Ratio::new(8, 1));
    assert_eq!(data.co, Vec3::new(8, 0, 0));

    let back = bvh
        .ray_cast_no_callback(Vec3::new(100, 0, 0), Vec3::new(-2, 0, 0))
        .unwrap();
    assert_eq!(back.data.unwrap().elem_index, 107);
    // from 100 down to 82, two units a step
    assert_eq!(back.dist, Ratio::new(82 - 100, -2));
    assert_eq!(back.data.unwrap().co, Vec3::new(82, 0, 0));

    assert!(bvh
        .ray_cast_no_callback(Vec3::new(0, 50, 0), Vec3::new(1, 0, 0))
        .is_none());
    assert!(bvh
        .ray_cast_no_callback(Vec3::new(0, 0, 0), Vec3::new(-1, 0, 0))
        .is_none());
    assert!(bvh
        .ray_cast_no_callback(Vec3::new(0, 0, 0), Vec3::new(0, 1, 0))
        .is_none());
}

#[test]
fn ray_cast_along_a_diagonal() {
    let mut bvh = BVHTree::<usize>::new(3, 1, 2, 6);
    bvh.insert(0, &[Vec3::new(9, 9, 9), Vec3::new(11, 11, 11)]);
    bvh.insert(1, &[Vec3::new(29, 29, 29), Vec3::new(31, 31, 31)]);
    bvh.insert(2, &[Vec3::new(29, -31, 29), Vec3::new(31, -29, 31)]);
    bvh.balance();
    let hit = bvh
        .ray_cast_no_callback(Vec3::new(0, 0, 0), Vec3::new(2, 2, 2))
        .unwrap();
    assert_eq!(hit.data.unwrap().elem_index, 0);
    assert_eq!(hit.dist, Ratio::new(8, 2));
    assert_eq!(hit.data.unwrap().co, Vec3::new(8, 8, 8));
    let other = bvh
        .ray_cast_no_callback(Vec3::new(0, 0, 0), Vec3::new(3, -3, 3))
        .unwrap();
    assert_eq!(other.data.unwrap().elem_index, 2);
    // rounded down: 28 / 3 = 9 + 1/3
    assert_eq!(other.dist, Ratio::new(28, 3));
    assert_eq!(other.data.unwrap().co, Vec3::new(28, -28, 28));
}

#[test]
fn ray_cast_with_callback() {
    let bvh = row_of_boxes();
    // the callback knows a hit on box 103 only
    let callback = |elem: usize| -> Option<RayHitData<usize, u8>> {
        if elem == 103 {
            let mut hit = RayHitData::new(Ratio::new(79, 2));
            hit.set_data(RayHitOptionalData::new(elem, Vec3::new(39, 0, 0)));
            hit.set_extra_data(7);
            Some(hit)
        } else {
            None
        }
    };
    let hit = bvh
        .ray_cast(Vec3::new(0, 0, 0), Vec3::new(1, 0, 0), callback)
        .unwrap();
    assert_eq!(hit.data.unwrap().elem_index, 103);
    assert_eq!(hit.dist, Ratio::new(79, 2));
    assert_eq!(hit.extra_data, Some(7));
    assert_eq!(hit.data.unwrap().co, Vec3::new(39, 0, 0));

    let never = |_: usize| -> Option<RayHitData<usize, ()>> { None };
    assert!(bvh
        .ray_cast(Vec3::new(0, 0, 0), Vec3::new(1, 0, 0), never)
        .is_none());
}

#[test]
fn nearest_point() {
    let mut bvh = BVHTree::<usize>::new(9, 1, 3, 8);
    let places = [
        (0, 0, 0),
        (100, 0, 0),
        (0, 100, 0),
        (0, 0, 100),
        (100, 100, 0),
        (50, 50, 50),
        (-70, 20, 10),
        (30, -90, 5),
        (10, 10, 90),
    ];
    for (i, p) in places.iter().enumerate() {
        bvh.insert(i + 10, &[Vec3::new(p.0, p.1, p.2)]);
    }
    bvh.balance();
    let found = bvh
        .find_nearest_no_callback(Vec3::new(53, 48, 49), 1_000_000)
        .unwrap();
    assert_eq!(*found.get_elem_index(), Some(15));
    // the leaf's box is the point widened by 1: the nearest point of the
    // box is (51, 49, 49)
    assert_eq!(*found.get_co(), Some(Vec3::new(51, 49, 49)));
    assert_eq!(found.get_dist_sq(), 4 + 1);
    assert!(found.get_normal().is_none());
    // a budget below the distance finds nothing
    assert!(bvh
        .find_nearest_no_callback(Vec3::new(53, 48, 49), 5)
        .is_none());
    assert!(bvh
        .find_nearest_no_callback(Vec3::new(53, 48, 49), 6)
        .is_some());
    // every query agrees with a search over all the leaves
    let mut rng = Lcg(77);
    for _ in 0..50 {
        let q = Vec3::new(rng.next(150), rng.next(150), rng.next(150));
        let best = (0..9)
            .map(|s| {
                let bv = bv_of(&bvh, s);
                let c = |v: i64, lo: i64, hi: i64| v.max(lo).min(hi);
                let dx = q.x - c(q.x, bv[0], bv[1]);
                let dy = q.y - c(q.y, bv[2], bv[3]);
                let dz = q.z - c(q.z, bv[4], bv[5]);
                dx * dx + dy * dy + dz * dz
            })
            .min()
            .unwrap();
        let found = bvh.find_nearest_no_callback(q, i64::MAX).unwrap();
        assert_eq!(found.get_dist_sq(), best);
    }
}

#[test]
fn nearest_point_with_callback() {
    let mut bvh = BVHTree::<usize>::new(4, 1, 2, 6);
    let places = [(0i64, 0i64, 0i64), (10, 0, 0), (20, 0, 0), (30, 0, 0)];
    for (i, p) in places.iter().enumerate() {
        bvh.insert(i, &[Vec3::new(p.0, p.1, p.2)]);
    }
    bvh.balance();
    // the exact distance to the point itself, not to its box
    let callback = Some(
        move |elem: usize, co: &Vec3, cur: &NearestData<usize>| -> NearestData<usize> {
            let p = places[elem];
            let d = (co.x - p.0) * (co.x - p.0)
                + (co.y - p.1) * (co.y - p.1)
                + (co.z - p.2) * (co.z - p.2);
            if d < cur.get_dist_sq() {
                NearestData::new(Some(elem), Some(Vec3::new(p.0, p.1, p.2)), None, d)
            } else {
                NearestData::new(cur.elem_index, cur.co, cur.normal, cur.dist_sq)
            }
        },
    );
    let found = bvh
        .find_nearest(Vec3::new(17, 3, 0), 10_000, &callback)
        .unwrap();
    assert_eq!(*found.get_elem_index(), Some(2));
    assert_eq!(found.get_dist_sq(), 9 + 9);
    assert_eq!(*found.get_co(), Some(Vec3::new(20, 0, 0)));
}

#[test]
fn update_node_errors() {
    let mut bvh = scattered(5, 2, 6, 3);
    let p = [Vec3::new(0, 0, 0), Vec3::new(1, 1, 1)];
    assert_eq!(
        bvh.update_node(5, &p, &[]),
        Err(BVHError::IndexOutOfRange)
    );
    assert_eq!(
        bvh.update_node(99, &p, &[]),
        Err(BVHError::IndexOutOfRange)
    );
    assert_eq!(
        bvh.update_node(0, &p, &p[..1]),
        Err(BVHError::DifferentNumPoints)
    );
    assert_eq!(bvh.update_node(4, &p, &p), Ok(()));
    assert_eq!(
        BVHError::IndexOutOfRange.message(),
        "Index given is out of range"
    );
    assert_eq!(
        BVHError::DifferentNumPoints.message(),
        "Different number of points given"
    );
}

#[test]
fn update_node_and_tree_refit() {
    let mut bvh = scattered(30, 3, 6, 5);
    let before_root = bv_of(&bvh, bvh.totleaf);
    let still = [Vec3::new(5000, 5000, 5000), Vec3::new(5001, 5002, 5003)];
    let moving = [Vec3::new(4990, 5000, 5000), Vec3::new(5001, 5002, 5010)];
    assert_eq!(bvh.update_node(7, &still, &moving), Ok(()));
    assert_eq!(
        bv_of(&bvh, 7),
        vec![4990 - 2, 5001 + 2, 5000 - 2, 5002 + 2, 5000 - 2, 5010 + 2]
    );
    // the inner nodes are as they were until the tree is updated
    assert_eq!(bv_of(&bvh, bvh.totleaf), before_root);
    bvh.update_tree();
    let root = bv_of(&bvh, bvh.totleaf);
    assert_eq!(root[1], 5003);
    assert_eq!(root[3], 5004);
    assert_eq!(root[5], 5012);
    let mut leaves = Vec::new();
    leaves_under(&bvh, bvh.totleaf, &mut leaves);
    assert_eq!(leaves.len(), 30);
    // each inner node is exactly the union of its children
    for s in bvh.totleaf..bvh.totleaf + bvh.totbranch {
        let bv = bv_of(&bvh, s);
        let kids = children_of(&bvh, s);
        for a in 0..3 {
            let low = kids.iter().map(|&c| bv_of(&bvh, c)[2 * a]).min().unwrap();
            let high = kids
                .iter()
                .map(|&c| bv_of(&bvh, c)[2 * a + 1])
                .max()
                .unwrap();
            assert_eq!(bv[2 * a], low);
            assert_eq!(bv[2 * a + 1], high);
        }
    }
}

#[test]
fn update_node_without_moving_points() {
    let mut bvh = scattered(4, 2, 6, 8);
    let still = [Vec3::new(1, 2, 3), Vec3::new(-1, 5, 3)];
    assert_eq!(bvh.update_node(0, &still, &[]), Ok(()));
    assert_eq!(bv_of(&bvh, 0), vec![-3, 3, 0, 7, 1, 5]);
}

#[test]
fn ray_cast_agrees_with_a_test_of_every_leaf() {
    let bvh = scattered(300, 4, 8, 21);
    let mut rng = Lcg(5);
    let mut hits = 0;
    for _ in 0..200 {
        let co = Vec3::new(rng.next(1200), rng.next(1200), rng.next(1200));
        let mut dir = Vec3::new(rng.next(50), rng.next(50), rng.next(50));
        if dir == Vec3::new(0, 0, 0) {
            dir = Vec3::new(1, 0, 0);
        }
        let data = RayCastData::new(co, dir);
        // the nearest entry into the box of a leaf
        let mut best: Option<Ratio> = None;
        for s in 0..300 {
            if let Some(d) = ray_hit(&bv_of(&bvh, s), &data, Ratio::infinite()) {
                best = match best {
                    Some(b) if !d.less(&b) => Some(b),
                    _ => Some(d),
                };
            }
        }
        let found = bvh.ray_cast_no_callback(co, dir);
        match (found, best) {
            (None, None) => {}
            (Some(hit), Some(b)) => {
                hits += 1;
                assert!(!hit.dist.less(&b) && !b.less(&hit.dist));
            }
            (found, best) => panic!("{:?} and {:?} differ", found.map(|h| h.dist), best),
        }
    }
    assert!(hits > 0);
}

#[test]
fn large_trees() {
    for (count, tree_type) in [(5000usize, 2u8), (5000, 7), (4097, 16), (3000, 32)] {
        let bvh = scattered(count, tree_type, 14, 99);
        assert_eq!(bvh.totbranch, implicit_needed_branches(tree_type, count));
        let mut leaves = Vec::new();
        leaves_under(&bvh, bvh.totleaf, &mut leaves);
        leaves.sort();
        assert_eq!(leaves, (0..count).collect::<Vec<usize>>());
        let found = bvh
            .find_nearest_no_callback(Vec3::new(10, 20, 30), i64::MAX)
            .unwrap();
        let best = (0..count)
            .map(|s| {
                let bv = bv_of(&bvh, s);
                let c = |v: i64, lo: i64, hi: i64| v.max(lo).min(hi);
                let dx = 10 - c(10, bv[0], bv[1]);
                let dy = 20 - c(20, bv[2], bv[3]);
                let dz = 30 - c(30, bv[4], bv[5]);
                dx * dx + dy * dy + dz * dz
            })
            .min()
            .unwrap();
        assert_eq!(found.get_dist_sq(), best);
    }
}

#[test]
fn siblings_are_split_along_the_widest_axis() {
    // under each inner node, no leaf of an earlier child has a larger
    // lower end on the node's split axis than a leaf of a later child
    let bvh = scattered(200, 3, 6, 4);
    for s in bvh.totleaf..bvh.totleaf + bvh.totbranch {
        let node = bvh.node_array.get_unknown_gen(s).unwrap().0;
        let key = 2 * node.main_axis as usize;
        let kids = children_of(&bvh, s);
        let mut last_high = i64::MIN;
        for &c in &kids {
            let mut leaves = Vec::new();
            leaves_under(&bvh, c, &mut leaves);
            let low = leaves.iter().map(|&l| bv_of(&bvh, l)[key]).min().unwrap();
            let high = leaves.iter().map(|&l| bv_of(&bvh, l)[key]).max().unwrap();
            assert!(last_high <= low);
            last_high = high;
        }
    }
}

#[test]
fn ray_cast_callback_gets_the_nearest_answer() {
    let bvh = scattered(200, 3, 14, 8);
    let boxes: Vec<Vec<i64>> = (0..200).map(|s| bv_of(&bvh, s)).collect();
    let mut rng = Lcg(12);
    let mut hits = 0;
    for _ in 0..150 {
        let co = Vec3::new(rng.next(1200), rng.next(1200), rng.next(1200));
        // towards the middle of a box
        let aim = &boxes[(rng.next(99) + 99) as usize];
        let mut dir = Vec3::new(
            (aim[0] + aim[1]) / 2 - co.x,
            (aim[2] + aim[3]) / 2 - co.y,
            (aim[4] + aim[5]) / 2 - co.z,
        );
        if dir == Vec3::new(0, 0, 0) {
            dir = Vec3::new(0, 1, 0);
        }
        let data = RayCastData::new(co, dir);
        // the callback answers for every third element, where the ray
        // enters its box
        let answer = |elem: usize| -> Option<RayHitData<usize, usize>> {
            if elem % 3 != 0 {
                return None;
            }
            let entry = ray_hit(&boxes[elem], &data, Ratio::infinite())?;
            let mut hit = RayHitData::new(entry);
            hit.set_data(RayHitOptionalData::new(elem, co));
            hit.set_extra_data(elem + 1);
            Some(hit)
        };
        let mut best: Option<Ratio> = None;
        for elem in 0..200 {
            if let Some(hit) = answer(elem) {
                best = match best {
                    Some(b) if !hit.dist.less(&b) => Some(b),
                    _ => Some(hit.dist),
                };
            }
        }
        match (bvh.ray_cast(co, dir, answer), best) {
            (None, None) => {}
            (Some(hit), Some(b)) => {
                hits += 1;
                assert!(!hit.dist.less(&b) && !b.less(&hit.dist));
                let elem = hit.data.unwrap().elem_index;
                assert_eq!(elem % 3, 0);
                assert_eq!(hit.extra_data, Some(elem + 1));
                assert_eq!(
                    ray_hit(&boxes[elem], &data, Ratio::infinite()),
                    Some(hit.dist)
                );
            }
            (found, best) => panic!("{:?} and {:?} differ", found.map(|h| h.dist), best),
        }
    }
    assert!(hits > 30);
}

#[test]
fn nearest_callback_gets_the_nearest_measure() {
    let bvh = scattered(200, 5, 26, 31);
    let boxes: Vec<Vec<i64>> = (0..200).map(|s| bv_of(&bvh, s)).collect();
    // an element is further than its box by the remainder of its number
    let measure = |elem: usize, q: &Vec3| -> i64 {
        let bv = &boxes[elem];
        let c = |v: i64, lo: i64, hi: i64| v.max(lo).min(hi);
        let dx = q.x - c(q.x, bv[0], bv[1]);
        let dy = q.y - c(q.y, bv[2], bv[3]);
        let dz = q.z - c(q.z, bv[4], bv[5]);
        dx * dx + dy * dy + dz * dz + (elem % 7) as i64 * 1000
    };
    let callback = Some(
        |elem: usize, q: &Vec3, cur: &NearestData<usize>| -> NearestData<usize> {
            let d = measure(elem, q);
            if d < cur.get_dist_sq() {
                NearestData::new(Some(elem), Some(*q), None, d)
            } else {
                NearestData::new(cur.elem_index, cur.co, cur.normal, cur.dist_sq)
            }
        },
    );
    let mut rng = Lcg(3);
    for _ in 0..100 {
        let q = Vec3::new(rng.next(1100), rng.next(1100), rng.next(1100));
        let best = (0..200).map(|e| measure(e, &q)).min().unwrap();
        let found = bvh.find_nearest(q, i64::MAX, &callback).unwrap();
        assert_eq!(found.get_dist_sq(), best);
        assert_eq!(measure(found.get_elem_index().unwrap(), &q), best);
        // a budget that the nearest measure does not meet finds nothing
        assert!(bvh.find_nearest(q, best, &callback).is_none());
        assert!(bvh.find_nearest(q, best + 1, &callback).is_some());
    }
}

#[test]
fn overlap_of_two_trees_reports_leaves_in_the_same_slot() {
    let mut a = BVHTree::<usize>::new(2, 1, 2, 6);
    a.insert(10, &[Vec3::new(0, 0, 0), Vec3::new(1000, 1000, 1000)]);
    a.insert(11, &[Vec3::new(9000, 9000, 9000)]);
    a.balance();
    let mut b = BVHTree::<usize>::new(2, 1, 2, 6);
    b.insert(20, &[Vec3::new(500, 500, 500), Vec3::new(2000, 2000, 2000)]);
    b.insert(21, &[Vec3::new(-9000, -9000, -9000)]);
    b.balance();
    let found = a.overlap(&b, None::<&fn(usize, usize) -> bool>).unwrap();
    assert_eq!(found.len(), 1);
    assert_eq!((found[0].index_1, found[0].index_2), (10, 20));
    let back = b.overlap(&a, None::<&fn(usize, usize) -> bool>).unwrap();
    assert_eq!(back.len(), 1);
    assert_eq!((back[0].index_1, back[0].index_2), (20, 10));
    // a tree against itself leaves out each leaf against itself
    assert!(a.overlap(&a, None::<&fn(usize, usize) -> bool>).is_none());
    // told that the other tree is another, every leaf meets itself
    let all = a
        .overlap_known(&a, false, None::<&fn(usize, usize) -> bool>)
        .unwrap();
    assert_eq!(unordered_pairs(&all), vec![(10, 10), (11, 11)]);
    // two trees alike, built apart, are two trees
    let mut c = BVHTree::<usize>::new(2, 1, 2, 6);
    c.insert(10, &[Vec3::new(0, 0, 0), Vec3::new(1000, 1000, 1000)]);
    c.insert(11, &[Vec3::new(9000, 9000, 9000)]);
    c.balance();
    assert_eq!(
        unordered_pairs(&a.overlap(&c, None::<&fn(usize, usize) -> bool>).unwrap()),
        vec![(10, 10), (11, 11)]
    );
}

#[test]
fn overlap_with_an_empty_tree_is_none() {
    let mut full = BVHTree::<usize>::new(1, 1, 2, 6);
    full.insert(0, &[Vec3::new(0, 0, 0)]);
    full.balance();
    let mut empty = BVHTree::<usize>::new(1, 1, 2, 6);
    empty.balance();
    assert!(full
        .overlap(&empty, None::<&fn(usize, usize) -> bool>)
        .is_none());
    assert!(empty
        .overlap(&full, None::<&fn(usize, usize) -> bool>)
        .is_none());
    assert!(empty
        .overlap(&empty, None::<&fn(usize, usize) -> bool>)
        .is_none());
}

#[test]
fn leaves_are_split_by_the_lower_end() {
    // two boxes along z: the long one starts lower, the short one ends
    // lower
    let mut bvh = BVHTree::<usize>::new(2, 1, 2, 6);
    bvh.insert(0, &[Vec3::new(0, 0, 1000), Vec3::new(0, 0, 2000)]);
    bvh.insert(1, &[Vec3::new(0, 0, 0), Vec3::new(0, 0, 10000)]);
    bvh.balance();
    let root = bvh.node_array.get_unknown_gen(bvh.totleaf).unwrap().0;
    assert_eq!(root.main_axis, 2);
    assert_eq!(children_of(&bvh, bvh.totleaf), vec![1, 0]);
}

#[test]
fn insert_into_a_tree_of_18_axes() {
    let mut bvh = BVHTree::<usize>::new(3, 1, 2, 18);
    assert_eq!((bvh.start_axis, bvh.stop_axis), (7, 13));
    for slot in 0..bvh.nodes.len() {
        assert_eq!(bv_of(&bvh, slot), vec![0; 18]);
    }
    bvh.insert(0, &[Vec3::new(1000, 2000, 3000)]);
    assert_eq!(bvh.totleaf, 1);
    // the six axes stand from the first entry on
    assert_eq!(
        bv_of(&bvh, 0),
        vec![
            2999, 3001, 3999, 4001, 4999, 5001, -1001, -999, -2001, -1999, -1001, -999, 0, 0, 0,
            0, 0, 0
        ]
    );
    bvh.insert(1, &[Vec3::new(1000, 2000, 3001), Vec3::new(0, 0, 0)]);
    bvh.insert(2, &[Vec3::new(-7000, 2000, 9000)]);
    bvh.balance();
    assert_eq!((bvh.totleaf, bvh.totbranch), (3, 2));
    let mut leaves = Vec::new();
    leaves_under(&bvh, bvh.totleaf, &mut leaves);
    leaves.sort();
    assert_eq!(leaves, vec![0, 1, 2]);
    let found = bvh
        .overlap::<fn(usize, usize) -> bool>(&bvh, None)
        .unwrap();
    assert_eq!(unordered_pairs(&found), vec![(0, 1)]);
}

#[test]
fn handles_follow_the_order_of_insertion() {
    let mut bvh = BVHTree::<usize>::new(3, 1, 2, 6);
    bvh.insert(7, &[Vec3::new(5, 5, 5)]);
    bvh.insert(8, &[Vec3::new(1, 1, 1)]);
    assert_eq!(bvh.nodes[..3], [0, 1, UNKNOWN]);
    bvh.insert(9, &[Vec3::new(3, 3, 3)]);
    assert_eq!(bvh.nodes[..3], [0, 1, 2]);
    assert_eq!(bvh.elems, vec![7, 8, 9]);
}

#[test]
fn update_tree_refits_the_root_over_a_single_leaf() {
    for tree_type in [2u8, 3, 8] {
        let mut bvh = BVHTree::<usize>::new(1, 1, tree_type, 6);
        bvh.insert(0, &[Vec3::new(1, 2, 3)]);
        bvh.balance();
        assert_eq!(bv_of(&bvh, 1), vec![0, 2, 1, 3, 2, 4]);
        bvh.update_node(0, &[Vec3::new(10, 20, 30)], &[]).unwrap();
        bvh.update_tree();
        assert_eq!(bv_of(&bvh, 1), vec![9, 11, 19, 21, 29, 31]);
    }
}

fn parts_of(bvh: &BVHTree<usize>) -> (BVHParts<usize>, Vec<BVHNode>) {
    let node_list = (0..bvh.nodes.len())
        .map(|slot| {
            let node = bvh.node_array.get_unknown_gen(slot).unwrap().0;
            BVHNode {
                children: node.children.clone(),
                parent: node.parent,
                bv: node.bv.clone(),
                elem_index: node.elem_index,
                totnode: node.totnode,
                main_axis: node.main_axis,
            }
        })
        .collect();
    let parts = BVHParts {
        nodes: bvh.nodes.clone(),
        elems: bvh.elems.clone(),
        max_size: bvh.max_size,
        epsilon: bvh.epsilon,
        totleaf: bvh.totleaf,
        totbranch: bvh.totbranch,
        start_axis: bvh.start_axis,
        stop_axis: bvh.stop_axis,
        axis: bvh.axis,
        tree_type: bvh.tree_type,
    };
    (parts, node_list)
}

#[test]
fn a_tree_is_made_of_its_parts() {
    let bvh = scattered(50, 3, 14, 9);
    let (parts, node_list) = parts_of(&bvh);
    let again = BVHTree::from_parts(parts, node_list).unwrap();
    assert_eq!(again.nodes, bvh.nodes);
    assert_eq!((again.totleaf, again.totbranch), (bvh.totleaf, bvh.totbranch));
    for slot in 0..bvh.nodes.len() {
        assert_eq!(bv_of(&again, slot), bv_of(&bvh, slot));
        assert_eq!(children_of(&again, slot), children_of(&bvh, slot));
    }
    let q = Vec3::new(10, 20, 30);
    assert_eq!(
        again.find_nearest_no_callback(q, i64::MAX).unwrap().get_dist_sq(),
        bvh.find_nearest_no_callback(q, i64::MAX).unwrap().get_dist_sq()
    );
    // a tree that is not yet balanced, and an empty one
    let mut open = BVHTree::<usize>::new(4, 1, 2, 6);
    open.insert(3, &[Vec3::new(1, 1, 1)]);
    let (parts, node_list) = parts_of(&open);
    let mut open = BVHTree::from_parts(parts, node_list).unwrap();
    open.insert(4, &[Vec3::new(2, 2, 2)]);
    open.balance();
    assert_eq!((open.totleaf, open.totbranch), (2, 1));
}

#[test]
fn parts_that_do_not_go_together_make_no_tree() {
    let bvh = scattered(20, 4, 6, 2);
    // a node too few
    let (parts, mut node_list) = parts_of(&bvh);
    node_list.pop();
    assert!(BVHTree::from_parts(parts, node_list).is_none());
    // a leaf count that the elements do not match
    let (mut parts, node_list) = parts_of(&bvh);
    parts.totleaf = 19;
    assert!(BVHTree::from_parts(parts, node_list).is_none());
    // a child that is no node of the tree
    let (parts, mut node_list) = parts_of(&bvh);
    node_list[20].children[0] = 1000;
    assert!(BVHTree::from_parts(parts, node_list).is_none());
    // a leaf named twice
    let (mut parts, node_list) = parts_of(&bvh);
    parts.nodes[0] = parts.nodes[1];
    assert!(BVHTree::from_parts(parts, node_list).is_none());
    // a k-DOP type with the axes of another
    let (mut parts, node_list) = parts_of(&bvh);
    parts.axis = 8;
    assert!(BVHTree::from_parts(parts, node_list).is_none());
    // an inner node that is its own child
    let (parts, mut node_list) = parts_of(&bvh);
    node_list[20].children[0] = 20;
    assert!(BVHTree::from_parts(parts, node_list).is_none());
    // a volume out of bounds
    let (parts, mut node_list) = parts_of(&bvh);
    node_list[3].bv[0] = i64::MIN;
    assert!(BVHTree::from_parts(parts, node_list).is_none());
}

#[test]
fn trees_of_18_axes_meet_others_on_their_common_axes() {
    // two leaves apart along x + y, which both k-DOPs bound
    let mut a = BVHTree::<usize>::new(2, 1, 2, 18);
    a.insert(0, &[Vec3::new(0, 0, 0), Vec3::new(10, 10, 0)]);
    a.insert(1, &[Vec3::new(100, 100, 0)]);
    a.balance();
    for (axis, pairs) in [(18u8, vec![(0, 5), (1, 6)]), (26, vec![(0, 5), (1, 6)])] {
        let mut b = BVHTree::<usize>::new(2, 1, 2, axis);
        b.insert(5, &[Vec3::new(5, 5, 0)]);
        b.insert(6, &[Vec3::new(100, 100, 0)]);
        b.balance();
        let ab = a.overlap::<fn(usize, usize) -> bool>(&b, None).unwrap();
        assert_eq!(unordered_pairs(&ab), pairs);
        let ba = b.overlap::<fn(usize, usize) -> bool>(&a, None).unwrap();
        assert_eq!(unordered_pairs(&ba), pairs);
    }
    // a tree of 6 axes has no axis in common with it: nothing keeps two
    // leaves apart
    let mut c = BVHTree::<usize>::new(1, 1, 2, 6);
    c.insert(9, &[Vec3::new(-500, 7, 7)]);
    c.balance();
    let ac = a.overlap::<fn(usize, usize) -> bool>(&c, None).unwrap();
    assert_eq!(unordered_pairs(&ac), vec![(0, 9), (1, 9)]);
}

#[test]
fn every_leaf_lies_under_the_root_once() {
    for (count, tree_type, axis) in [(1usize, 2u8, 6u8), (2, 3, 8), (37, 3, 18), (200, 5, 26)] {
        let bvh = scattered(count, tree_type, axis, 11 + count as u64);
        let mut leaves = Vec::new();
        leaves_under(&bvh, bvh.totleaf, &mut leaves);
        leaves.sort();
        assert_eq!(leaves, (0..count).collect::<Vec<usize>>());
    }
}
