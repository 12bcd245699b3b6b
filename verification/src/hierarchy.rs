//! Building the bounding-volume hierarchy over the things of a scene.

use vstd::prelude::*;
use vstd::multiset::Multiset;
use vstd::arithmetic::power2::{lemma2_to64, lemma_pow2_unfold, pow2};
use std::cmp::Ordering;
use crate::aabb::BoundingBox;
use crate::bvh::{
    box_covers,
    boxes_cover,
    is_nearest_among,
    lemma_node_search_finds_nearest,
    BVHNode,
};
use crate::fixed::Fixed;
use crate::object::{Object, ObjectList};
use crate::ray::Ray;
use crate::random::draw_axis;
use crate::sorting::{
    insertion_point,
    lemma_insertion_point_bounds,
    lemma_sorted_along,
    sort_along,
    sort_key,
    sorted_along,
};
use crate::vec3::Point;

verus! {

/// Orders two things by the minimum corners of their boxes along `axis`.
pub fn compare_by_dim(a: &Object, b: &Object, time0: Fixed, time1: Fixed, axis: u32) -> (r: Ordering)
    requires
        axis < 3,
    ensures
        r == Ordering::Less <==> sort_key(*a, axis, time0, time1) < sort_key(*b, axis, time0, time1),
        r == Ordering::Equal <==> sort_key(*a, axis, time0, time1) == sort_key(*b, axis, time0, time1),
        r == Ordering::Greater <==> sort_key(*a, axis, time0, time1) > sort_key(*b, axis, time0, time1),
{
    let bb_a = a.bounding_box(time0, time1).unwrap();
    let bb_b = b.bounding_box(time0, time1).unwrap();
    bb_a.less_than_by_dim(&bb_b, axis)
}

/// The node over two things: the one with the smaller key along `axis` on
/// the left, and the second thing on the left where the keys are equal.
pub open spec fn pair_of(first: Object, second: Object, axis: u32, time0: Fixed, time1: Fixed) -> BVHNode {
    if sort_key(first, axis, time0, time1) < sort_key(second, axis, time0, time1) {
        BVHNode {
            left: Some(Box::new(first)),
            right: Some(Box::new(second)),
            bounding_box: BoundingBox::surrounding_box(&first.bounds(time0, time1), &second.bounds(time0, time1)),
        }
    } else {
        BVHNode {
            left: Some(Box::new(second)),
            right: Some(Box::new(first)),
            bounding_box: BoundingBox::surrounding_box(&second.bounds(time0, time1), &first.bounds(time0, time1)),
        }
    }
}

/// The node over the two halves of more than two things.
pub open spec fn joined(left_node: BVHNode, right_node: BVHNode) -> BVHNode {
    BVHNode {
        left: Some(Box::new(Object::BVHNodeType(left_node))),
        right: Some(Box::new(Object::BVHNodeType(right_node))),
        bounding_box: BoundingBox::surrounding_box(&left_node.bounding_box, &right_node.bounding_box),
    }
}

/// The node without children.
pub open spec fn childless() -> BVHNode {
    BVHNode {
        left: None,
        right: None,
        bounding_box: BoundingBox::new(
            Point::new(Fixed::zero(), Fixed::zero(), Fixed::zero()),
            Point::new(Fixed::zero(), Fixed::zero(), Fixed::zero()),
        ),
    }
}

/// The node over one thing: the thing as the left child, under its own box.
pub open spec fn single(thing: Object, time0: Fixed, time1: Fixed) -> BVHNode {
    BVHNode { left: Some(Box::new(thing)), right: None, bounding_box: thing.bounds(time0, time1) }
}

impl BVHNode {
    /// Makes a node of two things, ordered along `axis`.
    pub fn pair(first: Object, second: Object, axis: u32, time0: Fixed, time1: Fixed) -> (node: BVHNode)
        requires
            axis < 3,
        ensures
            node == pair_of(first, second, axis, time0, time1),
    {
        let first_box = first.bounding_box(time0, time1).unwrap();
        let second_box = second.bounding_box(time0, time1).unwrap();
        match compare_by_dim(&first, &second, time0, time1, axis) {
            Ordering::Less => BVHNode {
                left: Some(Box::new(first)),
                right: Some(Box::new(second)),
                bounding_box: BoundingBox::surrounding_box(&first_box, &second_box),
            },
            _ => BVHNode {
                left: Some(Box::new(second)),
                right: Some(Box::new(first)),
                bounding_box: BoundingBox::surrounding_box(&second_box, &first_box),
            },
        }
    }

    /// Builds the hierarchy over `objects` for the span from `time0` to
    /// `time1`. At every level an axis is drawn at random; more than two
    /// things are sorted along it and split in the middle of their number.
    /// Whatever is drawn, the result is a hierarchy of the objects: it is
    /// well formed where they are, and its leaves are their leaves. It is
    /// the hierarchy that `new_from_objects_with` builds with the axes
    /// drawn, taken in the order in which they are drawn. Over single
    /// things it has as many levels of nodes as halving their number takes.
    pub fn new_from_objects(objects: Vec<Object>, time0: Fixed, time1: Fixed) -> (node: BVHNode)
        ensures
            is_hierarchy_of(node, objects@, time0, time1),
            (forall|i: int| 0 <= i < objects@.len() ==> (#[trigger] objects@[i]).wf(time0, time1)) ==> node.wf(
                time0,
                time1,
            ),
            node.leaves().to_multiset() == leaf_bag(objects@),
            exists|axes: Seq<u32>| #[trigger] is_built_with(node, objects@, axes, time0, time1),
            (forall|i: int| 0 <= i < objects@.len() ==> (#[trigger] objects@[i]).is_leaf()) ==> node.height()
                == levels(objects@.len()),
        decreases objects@.len(),
    {
        let axis = draw_axis();
        let node = BVHNode::build_along(objects, axis, time0, time1);
        proof {
            if forall|i: int| 0 <= i < objects@.len() ==> (#[trigger] objects@[i]).is_leaf() {
                lemma_hierarchy_height(node, objects@, time0, time1);
            }
            lemma_hierarchy_leaves(node, objects@, time0, time1);
            if forall|i: int| 0 <= i < objects@.len() ==> (#[trigger] objects@[i]).wf(time0, time1) {
                lemma_hierarchy_wf(node, objects@, time0, time1);
            }
        }
        node
    }

    /// Builds the top of the hierarchy with the axis `axis`, and what lies
    /// under it with axes drawn at random.
    pub fn build_along(objects: Vec<Object>, axis: u32, time0: Fixed, time1: Fixed) -> (node: BVHNode)
        requires
            axis < 3,
        ensures
            is_hierarchy_of(node, objects@, time0, time1),
            objects@.len() == 0 ==> node == childless(),
            objects@.len() == 1 ==> node == single(objects@[0], time0, time1),
            objects@.len() == 2 ==> node == pair_of(objects@[0], objects@[1], axis, time0, time1),
            objects@.len() > 2 ==> exists|left_node: BVHNode, right_node: BVHNode|
                #![trigger joined(left_node, right_node)]
                {
                    &&& node == joined(left_node, right_node)
                    &&& is_hierarchy_of(left_node, halves_along(objects@, axis, time0, time1).0, time0, time1)
                    &&& is_hierarchy_of(right_node, halves_along(objects@, axis, time0, time1).1, time0, time1)
                },
            exists|axes: Seq<u32>| #[trigger] is_built_with(node, objects@, axes, time0, time1) && axes[0] == axis,
        decreases objects@.len(), 0nat,
    {
        let ghost things = objects@;
        let mut objects = objects;
        let n = objects.len();
        if n == 0 {
            proof {
                assert(is_built_with(childless(), things, seq![axis], time0, time1));
            }
            BVHNode::new()
        } else if n == 1 {
            proof {
                assert(is_built_with(single(things[0], time0, time1), things, seq![axis], time0, time1));
            }
            let only = objects.pop().unwrap();
            let bounding_box = only.bounding_box(time0, time1).unwrap();
            BVHNode { left: Some(Box::new(only)), right: None, bounding_box }
        } else if n == 2 {
            proof {
                assert(seq![axis][0] == axis);
                assert(is_built_with(
                    pair_of(things[0], things[1], axis, time0, time1),
                    things,
                    seq![axis],
                    time0,
                    time1,
                ));
            }
            let second = objects.pop().unwrap();
            let first = objects.pop().unwrap();
            BVHNode::pair(first, second, axis, time0, time1)
        } else {
            let (lower, upper) = split_along(objects, axis, time0, time1);
            let ghost lower_things = lower@;
            let ghost upper_things = upper@;
            let left = BVHNode::new_from_objects(lower, time0, time1);
            let right = BVHNode::new_from_objects(upper, time0, time1);
            let bounding_box = BoundingBox::surrounding_box(&left.bounding_box, &right.bounding_box);
            let node = BVHNode {
                left: Some(Box::new(Object::BVHNodeType(left))),
                right: Some(Box::new(Object::BVHNodeType(right))),
                bounding_box,
            };
            assert(node == joined(left, right));
            proof {
                let left_axes = choose|axes: Seq<u32>| #[trigger]
                    is_built_with(left, lower_things, axes, time0, time1);
                let right_axes = choose|axes: Seq<u32>| #[trigger]
                    is_built_with(right, upper_things, axes, time0, time1);
                lemma_built_with_joined(things, axis, left_axes, right_axes, left, right, time0, time1);
                let axes = seq![axis] + left_axes + right_axes;
                assert(axes[0] == axis);
            }
            node
        }
    }
}

/// Sorts the things along `axis` and splits them in the middle of their
/// number; the lower half holds one thing less where the number is odd.
pub fn split_along(objects: Vec<Object>, axis: u32, time0: Fixed, time1: Fixed) -> (parts: (
    Vec<Object>,
    Vec<Object>,
))
    requires
        axis < 3,
    ensures
        (parts.0@, parts.1@) == halves_along(objects@, axis, time0, time1),
        parts.0@.len() == objects@.len() / 2,
        parts.0@.len() + parts.1@.len() == objects@.len(),
{
    let n = objects.len();
    let mut lower = sort_along(objects, axis, time0, time1);
    let upper = lower.split_off(n / 2);
    (lower, upper)
}

/// The lower and the upper half of `things` sorted along `axis`; the lower
/// half holds one thing less where the number is odd.
pub open spec fn halves_along(things: Seq<Object>, axis: u32, time0: Fixed, time1: Fixed) -> (
    Seq<Object>,
    Seq<Object>,
) {
    let sorted = sorted_along(things, axis, time0, time1);
    let mid = (things.len() / 2) as int;
    (sorted.subrange(0, mid), sorted.subrange(mid, things.len() as int))
}

/// Whether `node` is a hierarchy over `things` for the span from `time0` to
/// `time1`, for some choice of an axis at every level: no children for no
/// things; the one thing as the left child; two things ordered along the
/// axis; and for more, two nodes that are hierarchies over the lower and the
/// upper half of the things sorted along the axis, under the merge of their boxes.
pub open spec fn is_hierarchy_of(node: BVHNode, things: Seq<Object>, time0: Fixed, time1: Fixed) -> bool
    decreases things.len(),
{
    if things.len() == 0 {
        node == childless()
    } else if things.len() == 1 {
        node == single(things[0], time0, time1)
    } else if things.len() == 2 {
        exists|axis: u32| axis < 3 && node == #[trigger] pair_of(things[0], things[1], axis, time0, time1)
    } else {
        exists|axis: u32, left_node: BVHNode, right_node: BVHNode|
            #![trigger halves_along(things, axis, time0, time1), joined(left_node, right_node)]
            {
                &&& axis < 3
                &&& node == joined(left_node, right_node)
                &&& halves_along(things, axis, time0, time1).0.len() < things.len()
                &&& halves_along(things, axis, time0, time1).1.len() < things.len()
                &&& is_hierarchy_of(left_node, halves_along(things, axis, time0, time1).0, time0, time1)
                &&& is_hierarchy_of(right_node, halves_along(things, axis, time0, time1).1, time0, time1)
            }
    }
}

/// The leaves of all of `things`, each as often as it occurs.
pub open spec fn leaf_bag(things: Seq<Object>) -> Multiset<Object>
    decreases things.len(),
{
    if things.len() == 0 {
        Multiset::empty()
    } else {
        things[0].leaves().to_multiset().add(leaf_bag(things.drop_first()))
    }
}

/// Putting one more thing into a sequence adds its leaves to the bag.
pub proof fn lemma_leaf_bag_insert(things: Seq<Object>, i: int, thing: Object)
    requires
        0 <= i <= things.len(),
    ensures
        leaf_bag(things.insert(i, thing)) == leaf_bag(things).add(thing.leaves().to_multiset()),
    decreases things.len(),
{
    let out = things.insert(i, thing);
    if i == 0 {
        assert(out.drop_first() == things);
        assert(out[0] == thing);
        assert(leaf_bag(out) =~= leaf_bag(things).add(thing.leaves().to_multiset()));
    } else {
        lemma_leaf_bag_insert(things.drop_first(), i - 1, thing);
        assert(out.drop_first() == things.drop_first().insert(i - 1, thing));
        assert(out[0] == things[0]);
        assert(leaf_bag(out) =~= leaf_bag(things).add(thing.leaves().to_multiset()));
    }
}

/// Sorting leaves the bag of leaves as it was.
pub proof fn lemma_leaf_bag_sorted(things: Seq<Object>, axis: u32, time0: Fixed, time1: Fixed)
    ensures
        leaf_bag(sorted_along(things, axis, time0, time1)) == leaf_bag(things),
    decreases things.len(),
{
    if things.len() > 0 {
        let tail = things.drop_first();
        lemma_leaf_bag_sorted(tail, axis, time0, time1);
        let rest = sorted_along(tail, axis, time0, time1);
        let key = sort_key(things[0], axis, time0, time1);
        lemma_insertion_point_bounds(rest, key, axis, time0, time1);
        lemma_leaf_bag_insert(rest, insertion_point(rest, key, axis, time0, time1), things[0]);
        assert(leaf_bag(sorted_along(things, axis, time0, time1)) =~= leaf_bag(things));
    }
}

/// The bag of leaves of a sequence is the sum of the bags of its two parts.
pub proof fn lemma_leaf_bag_split(things: Seq<Object>, mid: int)
    requires
        0 <= mid <= things.len(),
    ensures
        leaf_bag(things) == leaf_bag(things.subrange(0, mid)).add(
            leaf_bag(things.subrange(mid, things.len() as int)),
        ),
    decreases mid,
{
    let lower = things.subrange(0, mid);
    let upper = things.subrange(mid, things.len() as int);
    if mid == 0 {
        assert(upper == things);
        assert(leaf_bag(things) =~= leaf_bag(lower).add(leaf_bag(upper)));
    } else {
        let tail = things.drop_first();
        lemma_leaf_bag_split(tail, mid - 1);
        assert(tail.subrange(0, mid - 1) == lower.drop_first());
        assert(tail.subrange(mid - 1, tail.len() as int) == upper);
        assert(lower[0] == things[0]);
        assert(leaf_bag(things) =~= leaf_bag(lower).add(leaf_bag(upper)));
    }
}

/// The bag of leaves of one thing alone, and of two.
proof fn lemma_leaf_bag_small(things: Seq<Object>)
    ensures
        things.len() == 1 ==> leaf_bag(things) == things[0].leaves().to_multiset(),
        things.len() == 2 ==> leaf_bag(things) == things[0].leaves().to_multiset().add(
            things[1].leaves().to_multiset(),
        ),
{
    if things.len() == 1 {
        assert(leaf_bag(things.drop_first()) == Multiset::<Object>::empty());
        assert(leaf_bag(things) =~= things[0].leaves().to_multiset());
    } else if things.len() == 2 {
        let tail = things.drop_first();
        assert(tail[0] == things[1]);
        assert(leaf_bag(tail.drop_first()) == Multiset::<Object>::empty());
        assert(leaf_bag(tail) =~= things[1].leaves().to_multiset());
        assert(leaf_bag(things) =~= things[0].leaves().to_multiset().add(things[1].leaves().to_multiset()));
    }
}

/// The leaves under a node over two children are the leaves of the left
/// child followed by those of the right.
proof fn lemma_leaves_of_two(node: BVHNode, left_child: Object, right_child: Object)
    requires
        node.left == Some(Box::new(left_child)),
        node.right == Some(Box::new(right_child)),
    ensures
        node.leaves() == left_child.leaves() + right_child.leaves(),
        node.leaves().to_multiset() == left_child.leaves().to_multiset().add(right_child.leaves().to_multiset()),
{
    vstd::seq_lib::lemma_multiset_commutative(left_child.leaves(), right_child.leaves());
}

/// The leaves of a hierarchy over some things are the leaves of those things.
pub proof fn lemma_hierarchy_leaves(node: BVHNode, things: Seq<Object>, time0: Fixed, time1: Fixed)
    requires
        is_hierarchy_of(node, things, time0, time1),
    ensures
        node.leaves().to_multiset() == leaf_bag(things),
    decreases things.len(),
{
    lemma_leaf_bag_small(things);
    if things.len() == 0 {
        assert(node.leaves() =~= Seq::<Object>::empty());
        assert(node.leaves().to_multiset() =~= leaf_bag(things)) by {
            broadcast use vstd::seq_lib::group_to_multiset_ensures;

        }
    } else if things.len() == 1 {
        assert(node.leaves() =~= things[0].leaves());
    } else if things.len() == 2 {
        let axis = choose|axis: u32|
            axis < 3 && node == #[trigger] pair_of(things[0], things[1], axis, time0, time1);
        if sort_key(things[0], axis, time0, time1) < sort_key(things[1], axis, time0, time1) {
            lemma_leaves_of_two(node, things[0], things[1]);
        } else {
            lemma_leaves_of_two(node, things[1], things[0]);
            assert(node.leaves().to_multiset() =~= leaf_bag(things));
        }
    } else {
        let (axis, left_node, right_node) = choose|axis: u32, left_node: BVHNode, right_node: BVHNode|
            #![trigger halves_along(things, axis, time0, time1), joined(left_node, right_node)]
            {
                &&& axis < 3
                &&& node == joined(left_node, right_node)
                &&& halves_along(things, axis, time0, time1).0.len() < things.len()
                &&& halves_along(things, axis, time0, time1).1.len() < things.len()
                &&& is_hierarchy_of(left_node, halves_along(things, axis, time0, time1).0, time0, time1)
                &&& is_hierarchy_of(right_node, halves_along(things, axis, time0, time1).1, time0, time1)
            };
        let sorted = sorted_along(things, axis, time0, time1);
        let mid = (things.len() / 2) as int;
        let lower = halves_along(things, axis, time0, time1).0;
        let upper = halves_along(things, axis, time0, time1).1;
        lemma_sorted_along(things, axis, time0, time1);
        lemma_hierarchy_leaves(left_node, lower, time0, time1);
        lemma_hierarchy_leaves(right_node, upper, time0, time1);
        lemma_leaf_bag_sorted(things, axis, time0, time1);
        lemma_leaf_bag_split(sorted, mid);
        lemma_leaves_of_two(node, Object::BVHNodeType(left_node), Object::BVHNodeType(right_node));
        assert(Object::BVHNodeType(left_node).leaves() == left_node.leaves());
        assert(Object::BVHNodeType(right_node).leaves() == right_node.leaves());
    }
}

/// Every thing of a sequence sorted from well-formed things is well formed.
proof fn lemma_sorted_keeps_wf(things: Seq<Object>, axis: u32, time0: Fixed, time1: Fixed)
    requires
        forall|i: int| 0 <= i < things.len() ==> (#[trigger] things[i]).wf(time0, time1),
    ensures
        forall|i: int|
            0 <= i < things.len() ==> (#[trigger] sorted_along(things, axis, time0, time1)[i]).wf(time0, time1),
{
    broadcast use vstd::seq_lib::group_to_multiset_ensures;

    let sorted = sorted_along(things, axis, time0, time1);
    lemma_sorted_along(things, axis, time0, time1);
    assert forall|i: int| 0 <= i < things.len() implies (#[trigger] sorted[i]).wf(time0, time1) by {
        assert(sorted.contains(sorted[i]));
        assert(things.to_multiset().count(sorted[i]) > 0);
        assert(things.contains(sorted[i]));
    }
}

/// The halves of well-formed things sorted along an axis are well formed,
/// and shorter than the whole where there are more than two things.
proof fn lemma_halves_keep_wf(things: Seq<Object>, axis: u32, time0: Fixed, time1: Fixed)
    requires
        forall|i: int| 0 <= i < things.len() ==> (#[trigger] things[i]).wf(time0, time1),
    ensures
        forall|i: int|
            0 <= i < halves_along(things, axis, time0, time1).0.len() ==> (#[trigger] halves_along(
                things,
                axis,
                time0,
                time1,
            ).0[i]).wf(time0, time1),
        forall|i: int|
            0 <= i < halves_along(things, axis, time0, time1).1.len() ==> (#[trigger] halves_along(
                things,
                axis,
                time0,
                time1,
            ).1[i]).wf(time0, time1),
{
    let sorted = sorted_along(things, axis, time0, time1);
    let mid = (things.len() / 2) as int;
    let lower = halves_along(things, axis, time0, time1).0;
    let upper = halves_along(things, axis, time0, time1).1;
    lemma_sorted_along(things, axis, time0, time1);
    lemma_sorted_keeps_wf(things, axis, time0, time1);
    assert forall|i: int| 0 <= i < lower.len() implies (#[trigger] lower[i]).wf(time0, time1) by {
        assert(lower[i] == sorted[i]);
    }
    assert forall|i: int| 0 <= i < upper.len() implies (#[trigger] upper[i]).wf(time0, time1) by {
        assert(upper[i] == sorted[i + mid]);
    }
}

/// A node over two well-formed things is well formed.
proof fn lemma_pair_wf(first: Object, second: Object, axis: u32, time0: Fixed, time1: Fixed)
    requires
        first.wf(time0, time1),
        second.wf(time0, time1),
    ensures
        pair_of(first, second, axis, time0, time1).wf(time0, time1),
{
    let node = pair_of(first, second, axis, time0, time1);
    let a = first.bounds(time0, time1);
    let b = second.bounds(time0, time1);
    crate::aabb::lemma_surrounding_box_contains(a, b);
    crate::aabb::lemma_surrounding_box_contains(b, a);
    if sort_key(first, axis, time0, time1) < sort_key(second, axis, time0, time1) {
        assert(node.left == Some(Box::new(first)) && node.right == Some(Box::new(second)));
        assert(node.bounding_box == BoundingBox::surrounding_box(&a, &b));
    } else {
        assert(node.left == Some(Box::new(second)) && node.right == Some(Box::new(first)));
        assert(node.bounding_box == BoundingBox::surrounding_box(&b, &a));
    }
}

/// A node over two well-formed nodes is well formed.
proof fn lemma_joined_wf(left_node: BVHNode, right_node: BVHNode, time0: Fixed, time1: Fixed)
    requires
        left_node.wf(time0, time1),
        right_node.wf(time0, time1),
    ensures
        joined(left_node, right_node).wf(time0, time1),
{
    crate::aabb::lemma_surrounding_box_contains(left_node.bounding_box, right_node.bounding_box);
    assert(Object::BVHNodeType(left_node).wf(time0, time1));
    assert(Object::BVHNodeType(right_node).wf(time0, time1));
}

/// A hierarchy over well-formed things is well formed.
pub proof fn lemma_hierarchy_wf(node: BVHNode, things: Seq<Object>, time0: Fixed, time1: Fixed)
    requires
        is_hierarchy_of(node, things, time0, time1),
        forall|i: int| 0 <= i < things.len() ==> (#[trigger] things[i]).wf(time0, time1),
    ensures
        node.wf(time0, time1),
    decreases things.len(),
{
    if things.len() == 0 {
    } else if things.len() == 1 {
        assert(things[0].wf(time0, time1));
    } else if things.len() == 2 {
        assert(things[0].wf(time0, time1));
        assert(things[1].wf(time0, time1));
        let axis = choose|axis: u32|
            axis < 3 && node == #[trigger] pair_of(things[0], things[1], axis, time0, time1);
        lemma_pair_wf(things[0], things[1], axis, time0, time1);
    } else {
        let (axis, left_node, right_node) = choose|axis: u32, left_node: BVHNode, right_node: BVHNode|
            #![trigger halves_along(things, axis, time0, time1), joined(left_node, right_node)]
            {
                &&& axis < 3
                &&& node == joined(left_node, right_node)
                &&& halves_along(things, axis, time0, time1).0.len() < things.len()
                &&& halves_along(things, axis, time0, time1).1.len() < things.len()
                &&& is_hierarchy_of(left_node, halves_along(things, axis, time0, time1).0, time0, time1)
                &&& is_hierarchy_of(right_node, halves_along(things, axis, time0, time1).1, time0, time1)
            };
        lemma_halves_keep_wf(things, axis, time0, time1);
        lemma_hierarchy_wf(left_node, halves_along(things, axis, time0, time1).0, time0, time1);
        lemma_hierarchy_wf(right_node, halves_along(things, axis, time0, time1).1, time0, time1);
        lemma_joined_wf(left_node, right_node, time0, time1);
    }
}


/// The bag of leaves of single things is the bag of the things themselves.
pub proof fn lemma_leaf_bag_of_single_things(things: Seq<Object>)
    requires
        forall|i: int| 0 <= i < things.len() ==> (#[trigger] things[i]).is_leaf(),
    ensures
        leaf_bag(things) == things.to_multiset(),
    decreases things.len(),
{
    broadcast use vstd::seq_lib::group_to_multiset_ensures;

    if things.len() == 0 {
        assert(leaf_bag(things) =~= things.to_multiset());
    } else {
        let tail = things.drop_first();
        assert forall|i: int| 0 <= i < tail.len() implies (#[trigger] tail[i]).is_leaf() by {
            assert(tail[i] == things[i + 1]);
        }
        lemma_leaf_bag_of_single_things(tail);
        assert(things[0].is_leaf());
        assert(things[0].leaves() == seq![things[0]]);
        assert(things == seq![things[0]] + tail);
        vstd::seq_lib::lemma_multiset_commutative(seq![things[0]], tail);
        assert(leaf_bag(things) =~= things.to_multiset());
    }
}

/// The search of a hierarchy built over single things finds the nearest
/// hit among those things: the thing found is one of them and is reached at
/// the stated parameter, no thing is reached earlier, and nothing is found
/// only where the ray reaches none of them before the very end of the
/// range. This holds whatever axes the hierarchy was built with, provided
/// the box of every thing answers for the thing's hits.
pub proof fn lemma_built_search_finds_nearest(
    node: BVHNode,
    things: Seq<Object>,
    time0: Fixed,
    time1: Fixed,
    t_min: Fixed,
    t_max: Fixed,
    ray: Ray,
)
    requires
        is_hierarchy_of(node, things, time0, time1),
        forall|i: int| 0 <= i < things.len() ==> (#[trigger] things[i]).is_leaf(),
        boxes_cover(things, time0, time1, t_min, t_max, &ray),
    ensures
        is_nearest_among(things, t_min, t_max, &ray, node.nearest(t_min, t_max, &ray)),
{
    broadcast use vstd::seq_lib::group_to_multiset_ensures;

    let leaves = node.leaves();
    lemma_hierarchy_leaves(node, things, time0, time1);
    lemma_leaf_bag_of_single_things(things);
    assert forall|i: int| 0 <= i < things.len() implies (#[trigger] things[i]).wf(time0, time1) by {
        assert(things[i].is_leaf());
    }
    lemma_hierarchy_wf(node, things, time0, time1);
    assert forall|x: Object| leaves.contains(x) <==> things.contains(x) by {
        assert(leaves.to_multiset().count(x) == things.to_multiset().count(x));
    }
    assert forall|i: int| 0 <= i < leaves.len() implies box_covers(
        #[trigger] leaves[i],
        time0,
        time1,
        t_min,
        t_max,
        &ray,
    ) by {
        assert(leaves.contains(leaves[i]));
        let k = choose|k: int| 0 <= k < things.len() && things[k] == leaves[i];
        assert(box_covers(things[k], time0, time1, t_min, t_max, &ray));
    }
    lemma_node_search_finds_nearest(node, time0, time1, t_min, t_max, ray);
    let found = node.nearest(t_min, t_max, &ray);
    assert forall|i: int| 0 <= i < things.len() implies match found {
        None => ((#[trigger] things[i]).reach(t_min, t_max, &ray) matches Some(other) ==> other == t_max),
        Some((t, owner)) => (things[i].reach(t_min, t_max, &ray) matches Some(other) ==> t.raw <= other.raw),
    } by {
        assert(things.contains(things[i]));
        let k = choose|k: int| 0 <= k < leaves.len() && leaves[k] == things[i];
        assert(leaves[k] == things[i]);
    }
}


/// The search of a hierarchy built over the single things of a list agrees
/// with testing every thing of the list in turn: both find a hit at the same
/// parameter, or both find nothing, or the search finds nothing and the
/// first hit lies at the very end of the range. This holds whatever axes
/// the hierarchy was built with, provided the box of every thing answers
/// for the thing's hits.
pub proof fn lemma_search_agrees_with_scan(
    node: BVHNode,
    list: ObjectList,
    time0: Fixed,
    time1: Fixed,
    t_min: Fixed,
    t_max: Fixed,
    ray: Ray,
)
    requires
        is_hierarchy_of(node, list.objects@, time0, time1),
        forall|i: int| 0 <= i < list.objects@.len() ==> (#[trigger] list.objects@[i]).is_leaf(),
        boxes_cover(list.objects@, time0, time1, t_min, t_max, &ray),
    ensures
        match (
            node.nearest(t_min, t_max, &ray),
            list.scanned(list.objects@.len() as int, t_min, t_max, &ray),
        ) {
            (Some((t, owner)), Some((other_t, other_owner))) => t == other_t,
            (None, Some((other_t, other_owner))) => other_t == t_max,
            (None, None) => true,
            (Some(hit), None) => false,
        },
{
    let things = list.objects@;
    let scanned = list.scanned(things.len() as int, t_min, t_max, &ray);
    let searched = node.nearest(t_min, t_max, &ray);
    list.lemma_scanned_is_nearest(things.len() as int, t_min, t_max, &ray);
    lemma_built_search_finds_nearest(node, things, time0, time1, t_min, t_max, ray);
    lemma_same_nearest(list, things.len() as int, t_min, t_max, &ray, searched, scanned);
}

/// Two answers to the question of the nearest hit among the things of a
/// list name the same parameter.
proof fn lemma_same_nearest(
    list: ObjectList,
    count: int,
    t_min: Fixed,
    t_max: Fixed,
    ray: &Ray,
    searched: Option<(Fixed, Object)>,
    scanned: Option<(Fixed, Object)>,
)
    requires
        count == list.objects@.len(),
        is_nearest_among(list.objects@, t_min, t_max, ray, searched),
        list.is_nearest_of_first(count, t_min, t_max, ray, scanned),
    ensures
        match (searched, scanned) {
            (Some((t, owner)), Some((other_t, other_owner))) => t == other_t,
            (None, Some((other_t, other_owner))) => other_t == t_max,
            (None, None) => true,
            (Some(hit), None) => false,
        },
{
    let things = list.objects@;
    match scanned {
        Some((other_t, other_owner)) => {
            let i = choose|i: int|
                0 <= i < count && (#[trigger] things[i]).nearest(t_min, t_max, ray) == Some((other_t, other_owner));
            assert(things[i].reach(t_min, t_max, ray) == Some(other_t));
            match searched {
                Some((t, owner)) => {
                    let k = choose|k: int| 0 <= k < things.len() && things[k] == owner;
                    assert(things[k].reach(t_min, t_max, ray) == Some(t));
                    assert(t.raw <= other_t.raw);
                    assert(other_t.raw <= t.raw);
                },
                None => {},
            }
        },
        None => {
            match searched {
                Some((t, owner)) => {
                    let k = choose|k: int| 0 <= k < things.len() && things[k] == owner;
                    assert(things[k].reach(t_min, t_max, ray) == Some(t));
                },
                None => {},
            }
        },
    }
}

/// The number of axes that building a hierarchy over `n` things uses: one
/// for every node.
pub open spec fn axes_used(n: nat) -> nat
    decreases n,
{
    if n <= 2 {
        1
    } else {
        1 + axes_used(n / 2) + axes_used((n - n / 2) as nat)
    }
}

/// Whether the first `count` of `axes` are axes: 0, 1 or 2.
pub open spec fn are_axes(axes: Seq<u32>, count: nat) -> bool {
    count <= axes.len() && forall|k: int| 0 <= k < count ==> #[trigger] axes[k] < 3
}

/// The hierarchy over `things` that uses the given axes, one for every
/// node: the first for the top, those that follow for what lies under the
/// left child, and the rest for what lies under the right child.
pub open spec fn built_with(things: Seq<Object>, axes: Seq<u32>, time0: Fixed, time1: Fixed) -> BVHNode
    decreases things.len(),
{
    if things.len() == 0 {
        childless()
    } else if things.len() == 1 {
        single(things[0], time0, time1)
    } else if things.len() == 2 {
        pair_of(things[0], things[1], axes[0], time0, time1)
    } else {
        let halves = halves_along(things, axes[0], time0, time1);
        if halves.0.len() < things.len() && halves.1.len() < things.len() {
            joined(
                built_with(halves.0, axes.skip(1), time0, time1),
                built_with(halves.1, axes.skip(1 + axes_used(halves.0.len()) as int), time0, time1),
            )
        } else {
            childless()
        }
    }
}

/// Whether `node` is the hierarchy over `things` that uses exactly the
/// axes of `axes`, one for every node.
pub open spec fn is_built_with(
    node: BVHNode,
    things: Seq<Object>,
    axes: Seq<u32>,
    time0: Fixed,
    time1: Fixed,
) -> bool {
    &&& axes.len() == axes_used(things.len())
    &&& forall|k: int| 0 <= k < axes.len() ==> #[trigger] axes[k] < 3
    &&& node == built_with(things, axes, time0, time1)
}

/// What is built depends on no more axes than are used: two runs of axes
/// that agree in that many places build the same hierarchy.
pub proof fn lemma_built_with_prefix(
    things: Seq<Object>,
    first: Seq<u32>,
    second: Seq<u32>,
    time0: Fixed,
    time1: Fixed,
)
    requires
        axes_used(things.len()) <= first.len(),
        axes_used(things.len()) <= second.len(),
        forall|k: int| 0 <= k < axes_used(things.len()) ==> first[k] == second[k],
    ensures
        built_with(things, first, time0, time1) == built_with(things, second, time0, time1),
    decreases things.len(),
{
    lemma_axes_used(things.len());
    if things.len() >= 2 {
        assert(first[0] == second[0]);
    }
    if things.len() > 2 {
        let axis = first[0];
        lemma_sorted_along(things, axis, time0, time1);
        let halves = halves_along(things, axis, time0, time1);
        let n = things.len();
        assert(halves.0.len() == n / 2);
        assert(halves.1.len() == n - n / 2);
        let used = axes_used(halves.0.len()) as int;
        lemma_axes_used(halves.0.len());
        lemma_axes_used(halves.1.len());
        let first_left = first.skip(1);
        let second_left = second.skip(1);
        let first_right = first.skip(1 + used);
        let second_right = second.skip(1 + used);
        assert forall|k: int| 0 <= k < axes_used(halves.0.len()) implies #[trigger] first_left[k]
            == second_left[k] by {
            assert(first_left[k] == first[k + 1]);
            assert(second_left[k] == second[k + 1]);
        }
        assert forall|k: int| 0 <= k < axes_used(halves.1.len()) implies #[trigger] first_right[k]
            == second_right[k] by {
            assert(first_right[k] == first[k + 1 + used]);
            assert(second_right[k] == second[k + 1 + used]);
        }
        lemma_built_with_prefix(halves.0, first_left, second_left, time0, time1);
        lemma_built_with_prefix(halves.1, first_right, second_right, time0, time1);
    }
}

/// The node over two halves built with their own axes is built with the
/// axis of the top, then the axes of the left half, then those of the right.
proof fn lemma_built_with_joined(
    things: Seq<Object>,
    axis: u32,
    left_axes: Seq<u32>,
    right_axes: Seq<u32>,
    left: BVHNode,
    right: BVHNode,
    time0: Fixed,
    time1: Fixed,
)
    requires
        things.len() > 2,
        axis < 3,
        is_built_with(left, halves_along(things, axis, time0, time1).0, left_axes, time0, time1),
        is_built_with(right, halves_along(things, axis, time0, time1).1, right_axes, time0, time1),
    ensures
        is_built_with(joined(left, right), things, seq![axis] + left_axes + right_axes, time0, time1),
{
    let axes = seq![axis] + left_axes + right_axes;
    let halves = halves_along(things, axis, time0, time1);
    let n = things.len();
    lemma_sorted_along(things, axis, time0, time1);
    assert(halves.0.len() == n / 2);
    assert(halves.1.len() == n - n / 2);
    assert(axes[0] == axis);
    let used = axes_used(halves.0.len()) as int;
    assert(axes.len() == axes_used(n));
    assert forall|k: int| 0 <= k < axes.len() implies #[trigger] axes[k] < 3 by {
        if k == 0 {
        } else if k < 1 + used {
            assert(axes[k] == left_axes[k - 1]);
        } else {
            assert(axes[k] == right_axes[k - 1 - used]);
        }
    }
    let rest = axes.skip(1);
    assert forall|k: int| 0 <= k < used implies #[trigger] rest[k] == left_axes[k] by {
        assert(rest[k] == axes[k + 1]);
    }
    lemma_built_with_prefix(halves.0, rest, left_axes, time0, time1);
    assert(axes.skip(1 + used) == right_axes);
}

/// Building uses at least one axis and fewer than twice as many as there
/// are things, or one where there are none.
pub proof fn lemma_axes_used(n: nat)
    ensures
        1 <= axes_used(n),
        n >= 1 ==> axes_used(n) <= 2 * n - 1,
    decreases n,
{
    if n > 2 {
        lemma_axes_used(n / 2);
        lemma_axes_used((n - n / 2) as nat);
    }
}

/// What is built with given axes is a hierarchy over the things.
pub proof fn lemma_built_is_hierarchy(things: Seq<Object>, axes: Seq<u32>, time0: Fixed, time1: Fixed)
    requires
        are_axes(axes, axes_used(things.len())),
    ensures
        is_hierarchy_of(built_with(things, axes, time0, time1), things, time0, time1),
    decreases things.len(),
{
    lemma_axes_used(things.len());
    if things.len() > 2 {
        let axis = axes[0];
        lemma_sorted_along(things, axis, time0, time1);
        let halves = halves_along(things, axis, time0, time1);
        let n = things.len();
        assert(halves.0.len() == n / 2);
        assert(halves.1.len() == n - n / 2);
        let first = axes.skip(1);
        let second = axes.skip(1 + axes_used(halves.0.len()) as int);
        lemma_axes_used(halves.0.len());
        lemma_axes_used(halves.1.len());
        assert(are_axes(first, axes_used(halves.0.len()))) by {
            assert forall|k: int| 0 <= k < axes_used(halves.0.len()) implies #[trigger] first[k] < 3 by {
                assert(first[k] == axes[k + 1]);
            }
        }
        assert(are_axes(second, axes_used(halves.1.len()))) by {
            assert forall|k: int| 0 <= k < axes_used(halves.1.len()) implies #[trigger] second[k] < 3 by {
                assert(second[k] == axes[k + 1 + axes_used(halves.0.len())]);
            }
        }
        lemma_built_is_hierarchy(halves.0, first, time0, time1);
        lemma_built_is_hierarchy(halves.1, second, time0, time1);
        let left_node = built_with(halves.0, first, time0, time1);
        let right_node = built_with(halves.1, second, time0, time1);
        assert(built_with(things, axes, time0, time1) == joined(left_node, right_node));
    } else if things.len() == 2 {
        assert(axes[0] < 3);
    }
}

impl BVHNode {
    /// Builds the hierarchy over `objects` with the axes of `axes` from
    /// place `start` on, one for every node, instead of axes drawn at random.
    pub fn new_from_objects_with(
        objects: Vec<Object>,
        axes: &Vec<u32>,
        start: usize,
        time0: Fixed,
        time1: Fixed,
    ) -> (node: BVHNode)
        requires
            start <= axes@.len(),
            are_axes(axes@.skip(start as int), axes_used(objects@.len())),
        ensures
            node == built_with(objects@, axes@.skip(start as int), time0, time1),
            is_hierarchy_of(node, objects@, time0, time1),
        decreases objects@.len(),
    {
        let ghost things = objects@;
        let ghost mine = axes@.skip(start as int);
        proof {
            lemma_axes_used(things.len());
            lemma_built_is_hierarchy(things, mine, time0, time1);
        }
        let mut objects = objects;
        let n = objects.len();
        if n == 0 {
            BVHNode::new()
        } else if n == 1 {
            let only = objects.pop().unwrap();
            let bounding_box = only.bounding_box(time0, time1).unwrap();
            BVHNode { left: Some(Box::new(only)), right: None, bounding_box }
        } else if n == 2 {
            assert(mine[0] == axes@[start as int]);
            let axis = axes[start];
            let second = objects.pop().unwrap();
            let first = objects.pop().unwrap();
            BVHNode::pair(first, second, axis, time0, time1)
        } else {
            assert(mine[0] == axes@[start as int]);
            let axis = axes[start];
            let (lower, upper) = split_along(objects, axis, time0, time1);
            proof {
                lemma_axes_used(lower@.len());
                lemma_axes_used(upper@.len());
                assert(lower@.len() == things.len() / 2);
                assert(upper@.len() == things.len() - things.len() / 2);
                assert(axes_used(things.len()) == 1 + axes_used(lower@.len()) + axes_used(upper@.len()));
                assert(start + 1 + axes_used(lower@.len()) + 1 <= axes@.len());
            }
            let used = count_axes(lower.len(), axes.len() - start - 1);
            let after_top: usize = start + 1;
            let after_left: usize = after_top + used;
            proof {
                let first = mine.skip(1);
                let second = mine.skip(1 + axes_used(lower@.len()) as int);
                assert(first == axes@.skip(after_top as int));
                assert(second == axes@.skip(after_left as int));
                assert(are_axes(first, axes_used(lower@.len()))) by {
                    assert forall|k: int| 0 <= k < axes_used(lower@.len()) implies #[trigger] first[k] < 3 by {
                        assert(first[k] == mine[k + 1]);
                    }
                }
                assert(are_axes(second, axes_used(upper@.len()))) by {
                    assert forall|k: int| 0 <= k < axes_used(upper@.len()) implies #[trigger] second[k] < 3 by {
                        assert(second[k] == mine[k + 1 + axes_used(lower@.len())]);
                    }
                }
            }
            let left = BVHNode::new_from_objects_with(lower, axes, after_top, time0, time1);
            let right = BVHNode::new_from_objects_with(upper, axes, after_left, time0, time1);
            let bounding_box = BoundingBox::surrounding_box(&left.bounding_box, &right.bounding_box);
            BVHNode {
                left: Some(Box::new(Object::BVHNodeType(left))),
                right: Some(Box::new(Object::BVHNodeType(right))),
                bounding_box,
            }
        }
    }
}

/// The number of axes that building a hierarchy over `n` things uses,
/// where that number is known not to exceed `limit`.
pub fn count_axes(n: usize, limit: usize) -> (count: usize)
    requires
        axes_used(n as nat) <= limit,
    ensures
        count == axes_used(n as nat),
    decreases n,
{
    if n <= 2 {
        1
    } else {
        proof {
            lemma_axes_used((n / 2) as nat);
            lemma_axes_used((n - n / 2) as nat);
        }
        let left = count_axes(n / 2, limit);
        let right = count_axes(n - n / 2, limit);
        1 + left + right
    }
}

impl Object {
    /// The number of levels of nodes in this tree: none for a single thing.
    pub open spec fn height(self) -> nat
        decreases self,
    {
        match self {
            Object::BVHNodeType(node) => node.height(),
            _ => 0,
        }
    }
}

impl BVHNode {
    /// The number of levels of nodes from this node down: one more than the
    /// higher of its children has.
    pub open spec fn height(self) -> nat
        decreases self,
    {
        let left = match self.left {
            None => 0nat,
            Some(tree) => tree.height(),
        };
        let right = match self.right {
            None => 0nat,
            Some(tree) => tree.height(),
        };
        if left >= right {
            1 + left
        } else {
            1 + right
        }
    }
}

/// The number of levels of nodes of a hierarchy over `n` single things: one
/// for up to two things, and for more one above the levels over the larger
/// half.
pub open spec fn levels(n: nat) -> nat
    decreases n,
{
    if n <= 2 {
        1
    } else {
        1 + levels((n - n / 2) as nat)
    }
}

/// More things never take fewer levels.
pub proof fn lemma_levels_grow(fewer: nat, more: nat)
    requires
        fewer <= more,
    ensures
        levels(fewer) <= levels(more),
    decreases more,
{
    if more > 2 {
        if fewer > 2 {
            lemma_levels_grow((fewer - fewer / 2) as nat, (more - more / 2) as nat);
        } else {
            lemma_levels_grow(fewer, (more - more / 2) as nat);
        }
    }
}

/// Up to two to the power of `k` things take at most `k` levels, and a
/// single level where `k` is zero.
pub proof fn lemma_levels_are_logarithmic(n: nat, k: nat)
    requires
        n <= pow2(k),
    ensures
        levels(n) <= (if k >= 1 {
            k
        } else {
            1
        }),
    decreases k,
{
    lemma2_to64();
    if n > 2 {
        if k == 0 {
        } else if k == 1 {
        } else {
            lemma_pow2_unfold(k);
            lemma_levels_are_logarithmic((n - n / 2) as nat, (k - 1) as nat);
        }
    }
}

/// A hierarchy over single things has exactly the levels that halving
/// their number takes.
pub proof fn lemma_hierarchy_height(node: BVHNode, things: Seq<Object>, time0: Fixed, time1: Fixed)
    requires
        is_hierarchy_of(node, things, time0, time1),
        forall|i: int| 0 <= i < things.len() ==> (#[trigger] things[i]).is_leaf(),
    ensures
        node.height() == levels(things.len()),
    decreases things.len(),
{
    if things.len() == 0 {
    } else if things.len() == 1 {
        assert(things[0].is_leaf());
    } else if things.len() == 2 {
        assert(things[0].is_leaf());
        assert(things[1].is_leaf());
    } else {
        let (axis, left_node, right_node) = choose|axis: u32, left_node: BVHNode, right_node: BVHNode|
            #![trigger halves_along(things, axis, time0, time1), joined(left_node, right_node)]
            {
                &&& axis < 3
                &&& node == joined(left_node, right_node)
                &&& halves_along(things, axis, time0, time1).0.len() < things.len()
                &&& halves_along(things, axis, time0, time1).1.len() < things.len()
                &&& is_hierarchy_of(left_node, halves_along(things, axis, time0, time1).0, time0, time1)
                &&& is_hierarchy_of(right_node, halves_along(things, axis, time0, time1).1, time0, time1)
            };
        let halves = halves_along(things, axis, time0, time1);
        let sorted = sorted_along(things, axis, time0, time1);
        let n = things.len();
        lemma_sorted_along(things, axis, time0, time1);
        assert(halves.0.len() == n / 2);
        assert(halves.1.len() == n - n / 2);
        lemma_sorted_keeps_single(things, axis, time0, time1);
        assert forall|i: int| 0 <= i < halves.0.len() implies (#[trigger] halves.0[i]).is_leaf() by {
            assert(halves.0[i] == sorted[i]);
        }
        assert forall|i: int| 0 <= i < halves.1.len() implies (#[trigger] halves.1[i]).is_leaf() by {
            assert(halves.1[i] == sorted[i + n / 2]);
        }
        lemma_hierarchy_height(left_node, halves.0, time0, time1);
        lemma_hierarchy_height(right_node, halves.1, time0, time1);
        lemma_levels_grow(n / 2, (n - n / 2) as nat);
        assert(Object::BVHNodeType(left_node).height() == left_node.height());
        assert(Object::BVHNodeType(right_node).height() == right_node.height());
    }
}

/// Every thing of a sequence sorted from single things is a single thing.
proof fn lemma_sorted_keeps_single(things: Seq<Object>, axis: u32, time0: Fixed, time1: Fixed)
    requires
        forall|i: int| 0 <= i < things.len() ==> (#[trigger] things[i]).is_leaf(),
    ensures
        forall|i: int|
            0 <= i < things.len() ==> (#[trigger] sorted_along(things, axis, time0, time1)[i]).is_leaf(),
{
    broadcast use vstd::seq_lib::group_to_multiset_ensures;

    let sorted = sorted_along(things, axis, time0, time1);
    lemma_sorted_along(things, axis, time0, time1);
    assert forall|i: int| 0 <= i < things.len() implies (#[trigger] sorted[i]).is_leaf() by {
        assert(sorted.contains(sorted[i]));
        assert(things.to_multiset().count(sorted[i]) > 0);
        assert(things.contains(sorted[i]));
    }
}

} // verus!
