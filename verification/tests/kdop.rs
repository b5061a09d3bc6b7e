use quick_renderer::bvh::kdop::{
    cal_nearest_point_squared, create_kdop_hull, distance_squared, get_largest_axis,
    min_max_init, overlap_test, project_on,
};
use quick_renderer::bvh::layout::build_implicit_helper;
use quick_renderer::bvh::ratio::Ratio;
use quick_renderer::bvh::ray::{ray_hit, RayCastData};
use quick_renderer::vector::Vec3;

#[test]
fn projections() {
    let p = Vec3::new(3, 5, 11);
    let expected = [3, 5, 11, 19, 9, -3, -13, 8, 14, 16, -2, -8, -6];
    for (axis, e) in expected.iter().enumerate() {
        assert_eq!(project_on(&p, axis), *e);
    }
}

#[test]
fn hull_grows_and_resets() {
    let mut bv = vec![0i64; 6];
    create_kdop_hull(&mut bv, 0, 3, &[Vec3::new(1, 2, 3), Vec3::new(-1, 5, 3)], false);
    assert_eq!(bv, vec![-1, 1, 2, 5, 3, 3]);
    create_kdop_hull(&mut bv, 0, 3, &[Vec3::new(4, 4, 4)], true);
    assert_eq!(bv, vec![-1, 4, 2, 5, 3, 4]);
    create_kdop_hull(&mut bv, 0, 3, &[Vec3::new(4, 4, 4)], false);
    assert_eq!(bv, vec![4, 4, 4, 4, 4, 4]);
    let mut part = vec![7i64; 8];
    min_max_init(&mut part, 1, 3);
    assert_eq!(
        part,
        vec![7, 7, 0x1000_0000, -0x1000_0000, 0x1000_0000, -0x1000_0000, 7, 7]
    );
}

#[test]
fn overlap_on_each_axis() {
    let a = vec![0, 10, 0, 10, 0, 10];
    let touching = vec![10, 20, 10, 20, 10, 20];
    let apart = vec![0, 10, 11, 20, 0, 10];
    assert!(overlap_test(&a, &touching, 0, 3));
    assert!(!overlap_test(&a, &apart, 0, 3));
    assert!(overlap_test(&a, &apart, 0, 1));
    assert!(overlap_test(&a, &apart, 2, 3));
    assert!(overlap_test(&a, &apart, 1, 1));
}

#[test]
fn largest_axis() {
    assert_eq!(get_largest_axis(&vec![0, 10, 0, 5, 0, 5]), 1);
    assert_eq!(get_largest_axis(&vec![0, 5, 0, 10, 0, 5]), 3);
    assert_eq!(get_largest_axis(&vec![0, 5, 0, 5, 0, 10]), 5);
    assert_eq!(get_largest_axis(&vec![0, 5, 0, 5, 0, 5]), 5);
    assert_eq!(get_largest_axis(&vec![0, 5, 0, 5, 0, 4]), 3);
    assert_eq!(get_largest_axis(&vec![0, 6, 0, 5, 0, 6]), 5);
}

#[test]
fn nearest_on_box() {
    let bv = vec![0, 10, 0, 10, 0, 10];
    let inside = cal_nearest_point_squared(&bv, &Vec3::new(3, 4, 5));
    assert_eq!(inside, Vec3::new(3, 4, 5));
    let outside = cal_nearest_point_squared(&bv, &Vec3::new(-3, 14, 5));
    assert_eq!(outside, Vec3::new(0, 10, 5));
    assert_eq!(distance_squared(&Vec3::new(-3, 14, 5), &outside), 9 + 16);
    assert_eq!(distance_squared(&Vec3::new(1, 2, 3), &Vec3::new(4, 6, 3)), 25);
}

#[test]
fn ratios() {
    let half = Ratio::new(1, 2);
    let third = Ratio::new(1, 3);
    assert!(third.less(&half));
    assert!(!half.less(&third));
    assert!(!half.less(&Ratio::new(2, 4)));
    assert!(Ratio::new(-1, 2).less(&third));
    assert!(Ratio::new(1, -2).less(&third));
    assert!(Ratio::new(-1, -2).less(&Ratio::new(2, 3)));
    assert!(half.less(&Ratio::infinite()));
    assert!(!Ratio::infinite().less(&half));
    assert!(!Ratio::infinite().less(&Ratio::infinite()));
    assert!(Ratio::new(-5, 0).less(&Ratio::new(-1000, 1)));
    assert!(Ratio::new(-5, 0).less(&Ratio::new(5, 0)));
    assert!(!Ratio::new(0, 0).less(&Ratio::zero()));
    assert!(!Ratio::zero().less(&Ratio::new(0, 0)));
    assert_eq!(half.larger(third), half);
    assert_eq!(third.larger(half), half);
    assert_eq!(half.larger(Ratio::new(2, 4)), half);
    assert_eq!(Ratio::new(7, 2).scale(3), 10);
    assert_eq!(Ratio::new(-7, 2).scale(3), -11);
    assert_eq!(Ratio::new(7, -2).scale(3), -11);
    assert_eq!(Ratio::new(7, 2).scale(-3), -11);
    assert_eq!(Ratio::new(8, 2).scale(-3), -12);
    assert_eq!(Ratio::new(5, 0).scale(3), 0);
    assert_eq!(Ratio::new(i64::MAX, i64::MAX).scale(5), 5);
}

#[test]
fn slab_test() {
    let bv = vec![10, 20, -5, 5, -5, 5];
    let along = RayCastData::new(Vec3::new(0, 0, 0), Vec3::new(2, 0, 0));
    assert_eq!(ray_hit(&bv, &along, Ratio::infinite()), Some(Ratio::new(10, 2)));
    assert_eq!(ray_hit(&bv, &along, Ratio::new(5, 1)), Some(Ratio::new(10, 2)));
    assert_eq!(ray_hit(&bv, &along, Ratio::new(4, 1)), None);
    let away = RayCastData::new(Vec3::new(0, 0, 0), Vec3::new(-2, 0, 0));
    assert_eq!(ray_hit(&bv, &away, Ratio::infinite()), None);
    let beside = RayCastData::new(Vec3::new(0, 6, 0), Vec3::new(1, 0, 0));
    assert_eq!(ray_hit(&bv, &beside, Ratio::infinite()), None);
    let slanted = RayCastData::new(Vec3::new(0, -10, 0), Vec3::new(2, 1, 0));
    // enters x at 5, y at 5, leaves x at 10, y at 15
    assert_eq!(ray_hit(&bv, &slanted, Ratio::infinite()), Some(Ratio::new(10, 2)));
    let inside = RayCastData::new(Vec3::new(15, 0, 0), Vec3::new(0, 0, 1));
    assert_eq!(ray_hit(&bv, &inside, Ratio::infinite()), Some(Ratio::new(-5, 1)));
    assert_eq!(along.index, [0, 1, 2, 3, 4, 5]);
    assert_eq!(away.index, [1, 0, 2, 3, 4, 5]);
}

#[test]
fn layout_tables() {
    let helper = build_implicit_helper(10, 4);
    assert_eq!(helper.totleafs, 10);
    assert_eq!(&helper.leafs_per_child[..4], &[16, 4, 1, 0]);
    assert_eq!(&helper.branches_on_level[..4], &[1, 4, 16, 64]);
    // 6 leaves do not fit the last full level; two of its nodes get children
    assert_eq!(helper.remain_leafs, 8);
    assert_eq!(helper.implicit_leafs_index(1, 0), 0);
    assert_eq!(helper.implicit_leafs_index(1, 1), 10);
    assert_eq!(helper.implicit_leafs_index(2, 0), 0);
    assert_eq!(helper.implicit_leafs_index(2, 1), 4);
    assert_eq!(helper.implicit_leafs_index(2, 2), 8);
    assert_eq!(helper.implicit_leafs_index(2, 3), 9);
    assert_eq!(helper.implicit_leafs_index(2, 4), 10);
    assert_eq!(helper.implicit_leafs_index(3, 4), 4);
    assert_eq!(helper.implicit_leafs_index(3, 9), 8);

    let binary = build_implicit_helper(8, 2);
    assert_eq!(&binary.leafs_per_child[..5], &[8, 4, 2, 1, 0]);
    assert_eq!(binary.remain_leafs, 8);
    assert_eq!(binary.implicit_leafs_index(3, 3), 6);
}
