use raytracer::bvh::{choose_split_axis, plan_split, SplitPlan};
use raytracer::random::random_int;

#[test]
#[allow(unused_comparisons)]
fn should_choose_only_3_axis() {
    let r = random_int(0, 3);
    assert!(r <= 2 && r >= 0);
}

#[test]
fn split_axis_is_always_one_of_three() {
    for _ in 0..200 {
        assert!(choose_split_axis() < 3);
    }
}

#[test]
fn random_int_stays_inside_the_range() {
    for _ in 0..200 {
        let r = random_int(10, 14);
        assert!((10..14).contains(&r));
    }
    // A one-element range leaves the generator no choice.
    assert_eq!(random_int(5, 6), 5);
}

#[test]
fn single_primitive_becomes_duplicated_leaf() {
    assert_eq!(plan_split(0, 1), SplitPlan::SingleLeaf { index: 0 });
    assert_eq!(plan_split(4, 5), SplitPlan::SingleLeaf { index: 4 });
}

#[test]
fn two_primitives_become_an_ordered_pair() {
    assert_eq!(plan_split(3, 5), SplitPlan::OrderedPair { first: 3, second: 4 });
}

#[test]
fn larger_ranges_split_at_the_midpoint() {
    assert_eq!(plan_split(0, 3), SplitPlan::Split { mid: 1 });
    assert_eq!(plan_split(0, 10), SplitPlan::Split { mid: 5 });
    assert_eq!(plan_split(2, 9), SplitPlan::Split { mid: 5 });
}
