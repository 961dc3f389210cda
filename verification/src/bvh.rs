use vstd::prelude::*;

use crate::random::random_int;

verus! {

/// What the bounding-volume-hierarchy builder does with one sub-range
/// `[lo, hi)` of the primitive list.
#[derive(Clone, Copy, Debug, PartialEq, Eq, Structural)]
pub enum SplitPlan {
    /// One primitive left: both children reference that same primitive.
    SingleLeaf { index: usize },
    /// Two primitives left: they become the two children; which of the two
    /// goes left is decided by comparing their bounding boxes.
    OrderedPair { first: usize, second: usize },
    /// Three or more: sort the sub-range along the chosen axis and recurse
    /// into `[lo, mid)` and `[mid, hi)`.
    Split { mid: usize },
}

/// Picks the axis (0, 1 or 2) along which one hierarchy node partitions its
/// primitives. The axis is drawn uniformly at random, per node.
pub fn choose_split_axis() -> (axis: usize)
    ensures
        axis < 3,
{
    random_int(0, 3)
}

/// Decides how the hierarchy builder treats the sub-range `[lo, hi)`.
///
/// In the recursive case the midpoint splits the sub-range into two halves
/// that are both non-empty and both strictly smaller than the whole, so the
/// recursion of the builder terminates.
pub fn plan_split(lo: usize, hi: usize) -> (plan: SplitPlan)
    requires
        lo < hi,
    ensures
        hi - lo == 1 ==> plan == (SplitPlan::SingleLeaf { index: lo }),
        hi - lo == 2 ==> plan == (SplitPlan::OrderedPair { first: lo, second: (lo + 1) as usize }),
        hi - lo >= 3 ==> plan == (SplitPlan::Split { mid: (lo + (hi - lo) / 2) as usize }),
        plan matches SplitPlan::Split { mid } ==> lo < mid < hi,
{
    let span = hi - lo;
    if span == 1 {
        SplitPlan::SingleLeaf { index: lo }
    } else if span == 2 {
        SplitPlan::OrderedPair { first: lo, second: lo + 1 }
    } else {
        SplitPlan::Split { mid: lo + span / 2 }
    }
}

// What follows is a mathematical model of the hierarchy query itself. The
// executable query works on floating-point rays and boxes and lives outside
// the library; the model works on the hit parameters alone, ordered values
// abstracted from the arithmetic that produced them, and proves that the
// pruned traversal returns the same nearest hit as a brute-force scan.

/// Shape of a built hierarchy over primitive indices: a leaf names one
/// primitive, an inner node has two subtrees.
pub enum HitTree {
    Leaf { prim: int },
    Node { left: Box<HitTree>, right: Box<HitTree> },
}

/// The primitives underneath a subtree.
pub open spec fn tree_prims(tree: HitTree) -> Set<int>
    decreases tree,
{
    match tree {
        HitTree::Leaf { prim } => Set::empty().insert(prim),
        HitTree::Node { left, right } => tree_prims(*left).union(tree_prims(*right)),
    }
}

/// The hit parameter `h`, if there is one, lies within the closed interval
/// `[lo, hi]`.
pub open spec fn hit_within(h: Option<int>, lo: int, hi: int) -> bool {
    match h {
        Some(t) => lo <= t <= hi,
        None => false,
    }
}

/// The parameter a hit carries.
pub open spec fn hit_value(h: Option<int>) -> int
    recommends
        h is Some,
{
    match h {
        Some(t) => t,
        None => 0,
    }
}

/// Some primitive of `ps` hits within `[lo, hi]`.
pub open spec fn some_hit_within(
    ps: Set<int>,
    hits: spec_fn(int) -> Option<int>,
    lo: int,
    hi: int,
) -> bool {
    exists|p: int| ps.contains(p) && hit_within(#[trigger] hits(p), lo, hi)
}

/// `v` is the nearest hit of `ps` within `[lo, hi]`: some primitive hits at
/// `v`, and none hits earlier.
pub open spec fn is_nearest_hit(
    ps: Set<int>,
    hits: spec_fn(int) -> Option<int>,
    lo: int,
    hi: int,
    v: int,
) -> bool {
    &&& lo <= v <= hi
    &&& (exists|p: int| ps.contains(p) && #[trigger] hits(p) == Some(v))
    &&& (forall|p: int|
        ps.contains(p) && hit_within(#[trigger] hits(p), lo, hi) ==> v <= hit_value(hits(p)))
}

/// Brute-force reference: scan the primitives in order, keep the nearest
/// hit found so far, and shrink the upper bound of the search interval to
/// it — the flat primitive list's query.
pub open spec fn scan_nearest(
    prims: Seq<int>,
    hits: spec_fn(int) -> Option<int>,
    lo: int,
    hi: int,
) -> Option<int>
    decreases prims.len(),
{
    if prims.len() == 0 {
        None
    } else if hit_within(hits(prims[0]), lo, hi) {
        let t0 = hit_value(hits(prims[0]));
        match scan_nearest(prims.drop_first(), hits, lo, t0) {
            Some(t1) => Some(t1),
            None => Some(t0),
        }
    } else {
        scan_nearest(prims.drop_first(), hits, lo, hi)
    }
}

/// The pruned traversal: a subtree whose box test fails is skipped; the
/// left subtree is searched over the whole interval; the upper bound
/// shrinks to the left hit, if any, before the right subtree is searched,
/// so a right result is always the nearer one and takes precedence.
pub open spec fn traverse_nearest(
    tree: HitTree,
    box_test: spec_fn(HitTree, int, int) -> bool,
    hits: spec_fn(int) -> Option<int>,
    lo: int,
    hi: int,
) -> Option<int>
    decreases tree,
{
    match tree {
        HitTree::Leaf { prim } => if hit_within(hits(prim), lo, hi) {
            hits(prim)
        } else {
            None
        },
        HitTree::Node { left, right } => if !box_test(tree, lo, hi) {
            None
        } else {
            let hl = traverse_nearest(*left, box_test, hits, lo, hi);
            let hi_right = match hl {
                Some(tl) => tl,
                None => hi,
            };
            let hr = traverse_nearest(*right, box_test, hits, lo, hi_right);
            match hr {
                Some(tr) => Some(tr),
                None => hl,
            }
        },
    }
}

/// The box test never prunes a subtree that holds a hit: whenever some
/// primitive under an inner node hits within the interval, that node's box
/// reports an intersection too. Geometrically this is what the slab test
/// gives, since a primitive lies inside its own box and inside every
/// ancestor's box.
pub open spec fn box_test_sound(
    tree: HitTree,
    box_test: spec_fn(HitTree, int, int) -> bool,
    hits: spec_fn(int) -> Option<int>,
) -> bool
    decreases tree,
{
    match tree {
        HitTree::Leaf { prim } => true,
        HitTree::Node { left, right } => {
            &&& (forall|lo: int, hi: int|
                some_hit_within(tree_prims(tree), hits, lo, hi) ==> #[trigger] box_test(
                    tree,
                    lo,
                    hi,
                ))
            &&& box_test_sound(*left, box_test, hits)
            &&& box_test_sound(*right, box_test, hits)
        },
    }
}

/// What the traversal returns is the nearest hit under the tree — nothing
/// exactly when nothing hits within the interval.
proof fn lemma_traverse_characterized(
    tree: HitTree,
    box_test: spec_fn(HitTree, int, int) -> bool,
    hits: spec_fn(int) -> Option<int>,
    lo: int,
    hi: int,
)
    requires
        box_test_sound(tree, box_test, hits),
    ensures
        traverse_nearest(tree, box_test, hits, lo, hi) matches Some(v) ==> is_nearest_hit(
            tree_prims(tree),
            hits,
            lo,
            hi,
            v,
        ),
        traverse_nearest(tree, box_test, hits, lo, hi) is None ==> !some_hit_within(
            tree_prims(tree),
            hits,
            lo,
            hi,
        ),
    decreases tree,
{
    match tree {
        HitTree::Leaf { prim } => {
            assert(tree_prims(tree).contains(prim));
        },
        HitTree::Node { left, right } => {
            if box_test(tree, lo, hi) {
                lemma_traverse_characterized(*left, box_test, hits, lo, hi);
                let hl = traverse_nearest(*left, box_test, hits, lo, hi);
                let hi_right = match hl {
                    Some(tl) => tl,
                    None => hi,
                };
                lemma_traverse_characterized(*right, box_test, hits, lo, hi_right);
                let hr = traverse_nearest(*right, box_test, hits, lo, hi_right);

                let lp = tree_prims(*left);
                let rp = tree_prims(*right);
                assert(tree_prims(tree) =~= lp.union(rp));

                match hr {
                    Some(vr) => {
                        assert forall|p: int|
                            tree_prims(tree).contains(p) && hit_within(
                                #[trigger] hits(p),
                                lo,
                                hi,
                            ) implies vr <= hit_value(hits(p)) by {
                            let t = hit_value(hits(p));
                            if rp.contains(p) {
                                if t <= hi_right {
                                    assert(hit_within(hits(p), lo, hi_right));
                                }
                            }
                        }
                    },
                    None => {
                        match hl {
                            Some(vl) => {
                                assert forall|p: int|
                                    tree_prims(tree).contains(p) && hit_within(
                                        #[trigger] hits(p),
                                        lo,
                                        hi,
                                    ) implies vl <= hit_value(hits(p)) by {
                                    let t = hit_value(hits(p));
                                    if rp.contains(p) && t <= hi_right {
                                        assert(some_hit_within(rp, hits, lo, hi_right));
                                    }
                                }
                            },
                            None => {
                                assert forall|p: int|
                                    tree_prims(tree).contains(p) implies !hit_within(
                                    #[trigger] hits(p),
                                    lo,
                                    hi,
                                ) by {
                                    if hit_within(hits(p), lo, hi) {
                                        if lp.contains(p) {
                                            assert(some_hit_within(lp, hits, lo, hi));
                                        } else {
                                            assert(some_hit_within(rp, hits, lo, hi_right));
                                        }
                                    }
                                }
                            },
                        }
                    },
                }
            }
        },
    }
}

/// What the scan returns is the nearest hit among the scanned primitives —
/// nothing exactly when nothing hits within the interval.
proof fn lemma_scan_characterized(
    prims: Seq<int>,
    hits: spec_fn(int) -> Option<int>,
    lo: int,
    hi: int,
)
    ensures
        scan_nearest(prims, hits, lo, hi) matches Some(v) ==> is_nearest_hit(
            prims.to_set(),
            hits,
            lo,
            hi,
            v,
        ),
        scan_nearest(prims, hits, lo, hi) is None ==> !some_hit_within(
            prims.to_set(),
            hits,
            lo,
            hi,
        ),
    decreases prims.len(),
{
    if prims.len() > 0 {
        let rest = prims.drop_first();
        assert(forall|i: int| 0 <= i < rest.len() ==> #[trigger] rest[i] == prims[i + 1]);
        assert forall|p: int| prims.to_set().contains(p) implies p == prims[0]
            || rest.to_set().contains(p) by {
            let i = choose|i: int| 0 <= i < prims.len() && prims[i] == p;
            if i > 0 {
                assert(rest[i - 1] == p);
            }
        }
        assert(rest.to_set().contains(prims[0]) ==> prims.to_set().contains(prims[0]));
        assert forall|p: int| rest.to_set().contains(p) implies prims.to_set().contains(p) by {
            let i = choose|i: int| 0 <= i < rest.len() && rest[i] == p;
            assert(prims[i + 1] == p);
        }
        assert(prims.to_set().contains(prims[0]));

        if hit_within(hits(prims[0]), lo, hi) {
            let t0 = hit_value(hits(prims[0]));
            lemma_scan_characterized(rest, hits, lo, t0);
            match scan_nearest(rest, hits, lo, t0) {
                Some(t1) => {
                    assert forall|p: int|
                        prims.to_set().contains(p) && hit_within(
                            #[trigger] hits(p),
                            lo,
                            hi,
                        ) implies t1 <= hit_value(hits(p)) by {
                        let t = hit_value(hits(p));
                        if p != prims[0] && t <= t0 {
                            assert(hit_within(hits(p), lo, t0));
                        }
                    }
                },
                None => {
                    assert forall|p: int|
                        prims.to_set().contains(p) && hit_within(
                            #[trigger] hits(p),
                            lo,
                            hi,
                        ) implies t0 <= hit_value(hits(p)) by {
                        let t = hit_value(hits(p));
                        if p != prims[0] && t < t0 {
                            assert(some_hit_within(rest.to_set(), hits, lo, t0));
                        }
                    }
                },
            }
        } else {
            lemma_scan_characterized(rest, hits, lo, hi);
            match scan_nearest(prims, hits, lo, hi) {
                Some(v) => {},
                None => {
                    assert forall|p: int|
                        prims.to_set().contains(p) implies !hit_within(
                        #[trigger] hits(p),
                        lo,
                        hi,
                    ) by {
                        if hit_within(hits(p), lo, hi) && p != prims[0] {
                            assert(some_hit_within(rest.to_set(), hits, lo, hi));
                        }
                    }
                },
            }
        }
    }
}

/// The hierarchy query agrees with the brute-force linear scan: over the
/// same primitives, the same hit parameters, and a box test that never
/// prunes a subtree holding a hit, the pruned traversal and the scan return
/// the same nearest hit — both nothing, or both the same parameter.
pub proof fn lemma_bvh_matches_linear_scan(
    tree: HitTree,
    box_test: spec_fn(HitTree, int, int) -> bool,
    hits: spec_fn(int) -> Option<int>,
    prims: Seq<int>,
    lo: int,
    hi: int,
)
    requires
        box_test_sound(tree, box_test, hits),
        prims.to_set() == tree_prims(tree),
    ensures
        traverse_nearest(tree, box_test, hits, lo, hi) == scan_nearest(prims, hits, lo, hi),
{
    lemma_traverse_characterized(tree, box_test, hits, lo, hi);
    lemma_scan_characterized(prims, hits, lo, hi);
    let tr = traverse_nearest(tree, box_test, hits, lo, hi);
    let sc = scan_nearest(prims, hits, lo, hi);
    match (tr, sc) {
        (Some(v1), Some(v2)) => {
            let p1 = choose|p: int| tree_prims(tree).contains(p) && #[trigger] hits(p) == Some(v1);
            let p2 = choose|p: int| prims.to_set().contains(p) && #[trigger] hits(p) == Some(v2);
            assert(hit_within(hits(p1), lo, hi));
            assert(hit_within(hits(p2), lo, hi));
            assert(v1 <= v2 && v2 <= v1);
        },
        (Some(v1), None) => {
            let p1 = choose|p: int| tree_prims(tree).contains(p) && #[trigger] hits(p) == Some(v1);
            assert(some_hit_within(prims.to_set(), hits, lo, hi)) by {
                assert(prims.to_set().contains(p1) && hit_within(hits(p1), lo, hi));
            }
        },
        (None, Some(v2)) => {
            let p2 = choose|p: int| prims.to_set().contains(p) && #[trigger] hits(p) == Some(v2);
            assert(some_hit_within(tree_prims(tree), hits, lo, hi)) by {
                assert(tree_prims(tree).contains(p2) && hit_within(hits(p2), lo, hi));
            }
        },
        (None, None) => {},
    }
}

} // verus!
