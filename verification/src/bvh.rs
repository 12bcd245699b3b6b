//! The bounding-volume hierarchy: a binary tree over the things of a scene,
//! searched with pruning by the boxes of its nodes.

use vstd::prelude::*;
use crate::aabb::{lemma_hits_monotone, BoundingBox};
use crate::fixed::Fixed;
use crate::object::{in_range, lemma_ball_hit_restricts, restricted, HitResult, Object};
use crate::ray::Ray;
use crate::vec3::Point;

verus! {

/// A node of the hierarchy: up to two children and a box around both. A node
/// over a single thing has that thing as its left child and no right child.
pub struct BVHNode {
    pub left: Option<Box<Object>>,
    pub right: Option<Box<Object>>,
    pub bounding_box: BoundingBox,
}

impl BVHNode {
    /// A node without children, with a box that is the single point at the origin.
    pub fn new() -> (node: BVHNode)
        ensures
            node.left.is_none(),
            node.right.is_none(),
            node.bounding_box == BoundingBox::new(
                Point::new(Fixed::zero(), Fixed::zero(), Fixed::zero()),
                Point::new(Fixed::zero(), Fixed::zero(), Fixed::zero()),
            ),
    {
        BVHNode {
            left: None,
            right: None,
            bounding_box: BoundingBox::new(
                Point::new(Fixed::zero(), Fixed::zero(), Fixed::zero()),
                Point::new(Fixed::zero(), Fixed::zero(), Fixed::zero()),
            ),
        }
    }

    /// The result of the pruned search: nothing where the ray misses the
    /// node's box; else the left child's nearest hit, replaced by the right
    /// child's where that one hits within the range cut down to the left hit.
    pub open spec fn nearest(self, t_min: Fixed, t_max: Fixed, ray: &Ray) -> Option<(Fixed, Object)>
        decreases self,
    {
        if !self.bounding_box.hits(t_min, t_max, *ray) {
            None
        } else {
            match self.left {
                None => None,
                Some(left_node) => {
                    let left_hit = left_node.nearest(t_min, t_max, ray);
                    match self.right {
                        None => left_hit,
                        Some(right_node) => match left_hit {
                            None => right_node.nearest(t_min, t_max, ray),
                            Some((t_left, owner)) => match right_node.nearest(t_min, t_left, ray) {
                                None => left_hit,
                                Some(right_hit) => Some(right_hit),
                            },
                        },
                    }
                },
            }
        }
    }

    /// The single things under this node, from left to right.
    pub open spec fn leaves(self) -> Seq<Object>
        decreases self,
    {
        (match self.left {
            None => Seq::<Object>::empty(),
            Some(left_node) => left_node.leaves(),
        }) + (match self.right {
            None => Seq::<Object>::empty(),
            Some(right_node) => right_node.leaves(),
        })
    }

    /// Whether the box of this node contains the boxes of its children for
    /// the span from `time0` to `time1`, and the same holds further down.
    pub open spec fn wf(self, time0: Fixed, time1: Fixed) -> bool
        decreases self,
    {
        &&& match self.left {
            None => self.right.is_none(),
            Some(left_node) => left_node.wf(time0, time1) && self.bounding_box.contains_box(
                left_node.bounds(time0, time1),
            ),
        }
        &&& match self.right {
            None => true,
            Some(right_node) => right_node.wf(time0, time1) && self.bounding_box.contains_box(
                right_node.bounds(time0, time1),
            ),
        }
    }

    /// Searches the subtree for the nearest hit of the ray within the range.
    /// The left child is searched first; a hit there cuts the range for the
    /// right child down to its distance. In a well-formed tree whose leaves
    /// have boxes that answer for their hits, what is found is the nearest
    /// hit among all leaves; only a hit at the very end of the range may go
    /// unfound.
    pub fn closest<'a>(&'a self, t_min: Fixed, t_max: Fixed, ray: &Ray) -> (r: Option<(Fixed, &'a Object)>)
        ensures
            match r {
                Some((t, owner)) => self.nearest(t_min, t_max, ray) == Some((t, *owner)),
                None => self.nearest(t_min, t_max, ray).is_none(),
            },
            forall|time0: Fixed, time1: Fixed| #[trigger]
                self.wf(time0, time1) && boxes_cover(self.leaves(), time0, time1, t_min, t_max, ray)
                    ==> is_nearest_among(
                    self.leaves(),
                    t_min,
                    t_max,
                    ray,
                    match r {
                        Some((t, owner)) => Some((t, *owner)),
                        None => None,
                    },
                ),
        decreases self,
    {
        proof {
            assert forall|time0: Fixed, time1: Fixed| #[trigger]
                self.wf(time0, time1) && boxes_cover(
                    self.leaves(),
                    time0,
                    time1,
                    t_min,
                    t_max,
                    ray,
                ) implies is_nearest_among(self.leaves(), t_min, t_max, ray, self.nearest(t_min, t_max, ray)) by {
                lemma_node_search_finds_nearest(*self, time0, time1, t_min, t_max, *ray);
            }
        }
        if !self.bounding_box.hit(t_min, t_max, ray) {
            return None;
        }
        match &self.left {
            None => None,
            Some(left_node) => {
                let left_hit = left_node.closest(t_min, t_max, ray);
                match &self.right {
                    None => left_hit,
                    Some(right_node) => match left_hit {
                        None => right_node.closest(t_min, t_max, ray),
                        Some((t_left, owner)) => match right_node.closest(t_min, t_left, ray) {
                            None => Some((t_left, owner)),
                            Some(right_hit) => Some(right_hit),
                        },
                    },
                }
            },
        }
    }

    /// The hit that the search of this node finds, with its full record,
    /// which is that of the thing hit. In a well-formed tree whose leaves
    /// have boxes that answer for their hits, it is the nearest hit among
    /// all leaves; only a hit at the very end of the range may go unfound.
    pub fn hit<'a>(&'a self, t_min: Fixed, t_max: Fixed, ray: &Ray) -> (r: Option<HitResult<'a>>)
        ensures
            match self.nearest(t_min, t_max, ray) {
                Some((t, owner)) => r.is_some() && r.unwrap() == owner.record(t, ray) && r.unwrap().t == t,
                None => r.is_none(),
            },
            forall|time0: Fixed, time1: Fixed| #[trigger]
                self.wf(time0, time1) && boxes_cover(self.leaves(), time0, time1, t_min, t_max, ray)
                    ==> is_nearest_among(self.leaves(), t_min, t_max, ray, self.nearest(t_min, t_max, ray)),
    {
        match self.closest(t_min, t_max, ray) {
            None => None,
            Some((t, owner)) => {
                proof {
                    lemma_node_nearest_is_leaf(*self, t_min, t_max, *ray);
                }
                Some(owner.hit_payload(t, ray))
            },
        }
    }

    /// The box the node was built with, whatever the times.
    pub fn bounding_box(&self, _time0: Fixed, _time1: Fixed) -> (b: Option<BoundingBox>)
        ensures
            b == Some(self.bounding_box),
    {
        Some(self.bounding_box)
    }
}

/// What a search returns is a single thing, never a node.
pub proof fn lemma_nearest_is_leaf(tree: Object, t_min: Fixed, t_max: Fixed, ray: Ray)
    ensures
        tree.nearest(t_min, t_max, &ray) matches Some((t, owner)) ==> owner.is_leaf(),
    decreases tree,
{
    match tree {
        Object::BVHNodeType(bvhnode) => lemma_node_nearest_is_leaf(bvhnode, t_min, t_max, ray),
        _ => {},
    }
}

/// What the search of a node returns is a single thing, never a node.
pub proof fn lemma_node_nearest_is_leaf(node: BVHNode, t_min: Fixed, t_max: Fixed, ray: Ray)
    ensures
        node.nearest(t_min, t_max, &ray) matches Some((t, owner)) ==> owner.is_leaf(),
    decreases node,
{
    if node.bounding_box.hits(t_min, t_max, ray) {
        match node.left {
            None => {},
            Some(left_node) => {
                lemma_nearest_is_leaf(*left_node, t_min, t_max, ray);
                match node.right {
                    None => {},
                    Some(right_node) => {
                        lemma_nearest_is_leaf(*right_node, t_min, t_max, ray);
                        match left_node.nearest(t_min, t_max, &ray) {
                            None => {},
                            Some((t_left, owner)) => {
                                lemma_nearest_is_leaf(*right_node, t_min, t_left, ray);
                            },
                        }
                    },
                }
            },
        }
    }
}


/// Whether `found` is the nearest hit among `things` within the range: a
/// thing of the sequence that the ray reaches at the stated parameter, with
/// no thing of the sequence reached earlier; or nothing, where the ray
/// reaches none of them before the very end of the range.
pub open spec fn is_nearest_among(
    things: Seq<Object>,
    t_min: Fixed,
    t_max: Fixed,
    ray: &Ray,
    found: Option<(Fixed, Object)>,
) -> bool {
    match found {
        None => forall|i: int|
            0 <= i < things.len() ==> ((#[trigger] things[i]).reach(t_min, t_max, ray) matches Some(other)
                ==> other == t_max),
        Some((t, owner)) => {
            &&& things.contains(owner)
            &&& owner.reach(t_min, t_max, ray) == Some(t)
            &&& forall|i: int|
                0 <= i < things.len() ==> ((#[trigger] things[i]).reach(t_min, t_max, ray) matches Some(other)
                    ==> t.raw <= other.raw)
        },
    }
}

/// Whether the box of `thing` answers for its hits up to `t_max`: whenever
/// the ray reaches the thing before the end of a range from `t_min` to some
/// bound that is not beyond `t_max`, the ray also passes through the
/// thing's box within that range.
pub open spec fn box_covers(thing: Object, time0: Fixed, time1: Fixed, t_min: Fixed, t_max: Fixed, ray: &Ray) -> bool {
    forall|bound: Fixed|
        bound.raw <= t_max.raw && ((#[trigger] thing.reach(t_min, bound, ray)) matches Some(t) && t.raw
            < bound.raw) ==> thing.bounds(time0, time1).hits(t_min, bound, *ray)
}

/// Whether the box of every one of `things` answers for its hits up to `t_max`.
pub open spec fn boxes_cover(
    things: Seq<Object>,
    time0: Fixed,
    time1: Fixed,
    t_min: Fixed,
    t_max: Fixed,
    ray: &Ray,
) -> bool {
    forall|i: int| 0 <= i < things.len() ==> box_covers(#[trigger] things[i], time0, time1, t_min, t_max, ray)
}

/// Every leaf of a tree is a single thing.
pub proof fn lemma_leaves_are_single(tree: Object)
    ensures
        forall|i: int| 0 <= i < tree.leaves().len() ==> (#[trigger] tree.leaves()[i]).is_leaf(),
    decreases tree,
{
    match tree {
        Object::BVHNodeType(bvhnode) => {
            lemma_node_leaves_are_single(bvhnode);
            assert(tree.leaves() == bvhnode.leaves());
        },
        _ => {
            assert(tree.leaves() == seq![tree]);
        },
    }
}

/// Every leaf under a node is a single thing.
pub proof fn lemma_node_leaves_are_single(node: BVHNode)
    ensures
        forall|i: int| 0 <= i < node.leaves().len() ==> (#[trigger] node.leaves()[i]).is_leaf(),
    decreases node,
{
    let left_leaves = match node.left {
        None => Seq::<Object>::empty(),
        Some(left_node) => left_node.leaves(),
    };
    let right_leaves = match node.right {
        None => Seq::<Object>::empty(),
        Some(right_node) => right_node.leaves(),
    };
    match node.left {
        None => {},
        Some(left_node) => lemma_leaves_are_single(*left_node),
    }
    match node.right {
        None => {},
        Some(right_node) => lemma_leaves_are_single(*right_node),
    }
    assert forall|i: int| 0 <= i < node.leaves().len() implies (#[trigger] node.leaves()[i]).is_leaf() by {
        if i < left_leaves.len() {
            assert(node.leaves()[i] == left_leaves[i]);
        } else {
            assert(node.leaves()[i] == right_leaves[i - left_leaves.len()]);
        }
    }
}

/// In a well-formed tree the box at the top contains the box of every leaf.
pub proof fn lemma_leaf_boxes_inside(tree: Object, time0: Fixed, time1: Fixed)
    requires
        tree.wf(time0, time1),
    ensures
        forall|i: int|
            0 <= i < tree.leaves().len() ==> tree.bounds(time0, time1).contains_box(
                (#[trigger] tree.leaves()[i]).bounds(time0, time1),
            ),
    decreases tree,
{
    match tree {
        Object::BVHNodeType(bvhnode) => {
            lemma_node_leaf_boxes_inside(bvhnode, time0, time1);
            assert(tree.leaves() == bvhnode.leaves());
        },
        _ => {
            assert(tree.leaves() == seq![tree]);
        },
    }
}

/// In a well-formed node the node's box contains the box of every leaf under it.
pub proof fn lemma_node_leaf_boxes_inside(node: BVHNode, time0: Fixed, time1: Fixed)
    requires
        node.wf(time0, time1),
    ensures
        forall|i: int|
            0 <= i < node.leaves().len() ==> node.bounding_box.contains_box(
                (#[trigger] node.leaves()[i]).bounds(time0, time1),
            ),
    decreases node,
{
    let left_leaves = match node.left {
        None => Seq::<Object>::empty(),
        Some(left_node) => left_node.leaves(),
    };
    let right_leaves = match node.right {
        None => Seq::<Object>::empty(),
        Some(right_node) => right_node.leaves(),
    };
    match node.left {
        None => {},
        Some(left_node) => lemma_leaf_boxes_inside(*left_node, time0, time1),
    }
    match node.right {
        None => {},
        Some(right_node) => lemma_leaf_boxes_inside(*right_node, time0, time1),
    }
    assert forall|i: int| 0 <= i < node.leaves().len() implies node.bounding_box.contains_box(
        (#[trigger] node.leaves()[i]).bounds(time0, time1),
    ) by {
        if i < left_leaves.len() {
            assert(node.leaves()[i] == left_leaves[i]);
        } else {
            assert(node.leaves()[i] == right_leaves[i - left_leaves.len()]);
        }
    }
}

/// Bringing the upper end of the range down restricts what a ray reaches
/// on a single thing and changes nothing else about it.
pub proof fn lemma_reach_restricts(thing: Object, t_min: Fixed, t_max: Fixed, tighter: Fixed, ray: Ray)
    requires
        thing.is_leaf(),
        tighter.raw <= t_max.raw,
    ensures
        thing.reach(t_min, tighter, &ray) == restricted(thing.reach(t_min, t_max, &ray), tighter),
        thing.reach(t_min, t_max, &ray) matches Some(t) ==> in_range(t, t_min, t_max),
{
    match thing {
        Object::SphereType(sphere) => {
            lemma_ball_hit_restricts(sphere.center, sphere.radius, t_min, t_max, tighter, ray);
        },
        Object::MovingSphereType(moving_sphere) => {
            lemma_ball_hit_restricts(
                moving_sphere.center(ray.time),
                moving_sphere.radius,
                t_min,
                t_max,
                tighter,
                ray,
            );
        },
        Object::BVHNodeType(bvhnode) => {},
    }
}

/// The pruned search of a well-formed tree finds the nearest hit among its
/// leaves, provided the box of every leaf answers for the leaf's hits; only
/// a hit at the very end of the range may go unfound.
pub proof fn lemma_search_finds_nearest(
    tree: Object,
    time0: Fixed,
    time1: Fixed,
    t_min: Fixed,
    t_max: Fixed,
    ray: Ray,
)
    requires
        tree.wf(time0, time1),
        boxes_cover(tree.leaves(), time0, time1, t_min, t_max, &ray),
    ensures
        is_nearest_among(tree.leaves(), t_min, t_max, &ray, tree.nearest(t_min, t_max, &ray)),
        tree.nearest(t_min, t_max, &ray) matches Some((t, owner)) ==> in_range(t, t_min, t_max),
    decreases tree,
{
    match tree {
        Object::BVHNodeType(bvhnode) => lemma_node_search_finds_nearest(bvhnode, time0, time1, t_min, t_max, ray),
        _ => {
            assert(tree.leaves()[0] == tree);
            lemma_reach_restricts(tree, t_min, t_max, t_max, ray);
        },
    }
}

/// The parts of a sequence of covered things are covered.
proof fn lemma_cover_parts(
    first: Seq<Object>,
    second: Seq<Object>,
    time0: Fixed,
    time1: Fixed,
    t_min: Fixed,
    t_max: Fixed,
    ray: &Ray,
)
    requires
        boxes_cover(first + second, time0, time1, t_min, t_max, ray),
    ensures
        boxes_cover(first, time0, time1, t_min, t_max, ray),
        boxes_cover(second, time0, time1, t_min, t_max, ray),
{
    let things = first + second;
    assert forall|i: int| 0 <= i < first.len() implies box_covers(
        #[trigger] first[i],
        time0,
        time1,
        t_min,
        t_max,
        ray,
    ) by {
        assert(first[i] == things[i]);
    }
    assert forall|i: int| 0 <= i < second.len() implies box_covers(
        #[trigger] second[i],
        time0,
        time1,
        t_min,
        t_max,
        ray,
    ) by {
        assert(second[i] == things[i + first.len()]);
    }
}

/// Things that are covered up to some bound are covered up to every lower bound.
proof fn lemma_cover_tighter(
    things: Seq<Object>,
    time0: Fixed,
    time1: Fixed,
    t_min: Fixed,
    t_max: Fixed,
    tighter: Fixed,
    ray: &Ray,
)
    requires
        boxes_cover(things, time0, time1, t_min, t_max, ray),
        tighter.raw <= t_max.raw,
    ensures
        boxes_cover(things, time0, time1, t_min, tighter, ray),
{
    assert forall|i: int| 0 <= i < things.len() implies box_covers(
        #[trigger] things[i],
        time0,
        time1,
        t_min,
        tighter,
        ray,
    ) by {
        assert(box_covers(things[i], time0, time1, t_min, t_max, ray));
    }
}

/// Where the ray misses the box of a well-formed node, it reaches no leaf
/// under the node whose own box answers for its hits, unless at the very
/// end of the range.
proof fn lemma_pruned_miss(node: BVHNode, time0: Fixed, time1: Fixed, t_min: Fixed, t_max: Fixed, ray: Ray)
    requires
        node.wf(time0, time1),
        boxes_cover(node.leaves(), time0, time1, t_min, t_max, &ray),
        !node.bounding_box.hits(t_min, t_max, ray),
    ensures
        is_nearest_among(node.leaves(), t_min, t_max, &ray, None),
{
    let things = node.leaves();
    lemma_node_leaf_boxes_inside(node, time0, time1);
    lemma_node_leaves_are_single(node);
    assert forall|i: int| 0 <= i < things.len() implies ((#[trigger] things[i]).reach(t_min, t_max, &ray) matches Some(
        other,
    ) ==> other == t_max) by {
        let leaf = things[i];
        match leaf.reach(t_min, t_max, &ray) {
            Some(other) => {
                lemma_reach_restricts(leaf, t_min, t_max, t_max, ray);
                if other.raw < t_max.raw {
                    assert(box_covers(leaf, time0, time1, t_min, t_max, &ray));
                    assert(leaf.bounds(time0, time1).hits(t_min, t_max, ray));
                    lemma_hits_monotone(
                        node.bounding_box,
                        leaf.bounds(time0, time1),
                        t_min,
                        t_max,
                        t_min,
                        t_max,
                        ray,
                    );
                }
            },
            None => {},
        }
    }
}

/// The pruned search of a well-formed node finds the nearest hit among the
/// leaves under it, provided the box of every leaf answers for the leaf's
/// hits; only a hit at the very end of the range may go unfound.
pub proof fn lemma_node_search_finds_nearest(
    node: BVHNode,
    time0: Fixed,
    time1: Fixed,
    t_min: Fixed,
    t_max: Fixed,
    ray: Ray,
)
    requires
        node.wf(time0, time1),
        boxes_cover(node.leaves(), time0, time1, t_min, t_max, &ray),
    ensures
        is_nearest_among(node.leaves(), t_min, t_max, &ray, node.nearest(t_min, t_max, &ray)),
        node.nearest(t_min, t_max, &ray) matches Some((t, owner)) ==> in_range(t, t_min, t_max),
    decreases node,
{
    if !node.bounding_box.hits(t_min, t_max, ray) {
        lemma_pruned_miss(node, time0, time1, t_min, t_max, ray);
    } else {
        match node.left {
            None => {
                assert(node.leaves() =~= Seq::<Object>::empty());
            },
            Some(left_node) => {
                let left_leaves = left_node.leaves();
                let right_leaves = match node.right {
                    None => Seq::<Object>::empty(),
                    Some(right_node) => right_node.leaves(),
                };
                assert(node.leaves() == left_leaves + right_leaves);
                lemma_cover_parts(left_leaves, right_leaves, time0, time1, t_min, t_max, &ray);
                lemma_search_finds_nearest(*left_node, time0, time1, t_min, t_max, ray);
                let left_hit = left_node.nearest(t_min, t_max, &ray);
                match node.right {
                    None => {
                        assert(left_leaves + right_leaves =~= left_leaves);
                    },
                    Some(right_node) => {
                        lemma_leaves_are_single(*right_node);
                        match left_hit {
                            None => {
                                lemma_search_finds_nearest(*right_node, time0, time1, t_min, t_max, ray);
                                let found = right_node.nearest(t_min, t_max, &ray);
                                lemma_joined(left_leaves, right_leaves, t_min, t_max, &ray, found);
                            },
                            Some((t_left, owner)) => {
                                lemma_cover_tighter(right_leaves, time0, time1, t_min, t_max, t_left, &ray);
                                lemma_search_finds_nearest(*right_node, time0, time1, t_min, t_left, ray);
                                let right_hit = right_node.nearest(t_min, t_left, &ray);
                                lemma_cut_joined(
                                    left_leaves,
                                    right_leaves,
                                    t_min,
                                    t_max,
                                    ray,
                                    t_left,
                                    owner,
                                    right_hit,
                                );
                            },
                        }
                    },
                }
            },
        }
    }
}

/// Where the ray reaches none of the first things before the end of the
/// range, the nearest hit among the second things is the nearest among all
/// of them.
proof fn lemma_joined(
    first: Seq<Object>,
    second: Seq<Object>,
    t_min: Fixed,
    t_max: Fixed,
    ray: &Ray,
    found: Option<(Fixed, Object)>,
)
    requires
        is_nearest_among(first, t_min, t_max, ray, None),
        is_nearest_among(second, t_min, t_max, ray, found),
        found matches Some((t, owner)) ==> in_range(t, t_min, t_max),
    ensures
        is_nearest_among(first + second, t_min, t_max, ray, found),
{
    let things = first + second;
    assert forall|i: int| 0 <= i < things.len() implies (i < first.len() ==> #[trigger] things[i] == first[i])
        && (i >= first.len() ==> things[i] == second[i - first.len()]) by {}
    match found {
        None => {
            assert forall|i: int| 0 <= i < things.len() implies ((#[trigger] things[i]).reach(
                t_min,
                t_max,
                ray,
            ) matches Some(other) ==> other == t_max) by {
                if i < first.len() {
                    assert(things[i] == first[i]);
                } else {
                    assert(things[i] == second[i - first.len()]);
                }
            }
        },
        Some((t, owner)) => {
            let k = choose|k: int| 0 <= k < second.len() && second[k] == owner;
            assert(things[k + first.len()] == owner);
            assert forall|i: int| 0 <= i < things.len() implies ((#[trigger] things[i]).reach(
                t_min,
                t_max,
                ray,
            ) matches Some(other) ==> t.raw <= other.raw) by {
                if i < first.len() {
                    assert(things[i] == first[i]);
                } else {
                    assert(things[i] == second[i - first.len()]);
                }
            }
        },
    }
}

/// Where the nearest hit among the first things lies at `t_left`, and
/// `right_hit` is the nearest among the second things within the range cut
/// down to `t_left`, the nearest among all of them is `right_hit` where
/// there is one and the hit at `t_left` otherwise.
proof fn lemma_cut_joined(
    first: Seq<Object>,
    second: Seq<Object>,
    t_min: Fixed,
    t_max: Fixed,
    ray: Ray,
    t_left: Fixed,
    owner: Object,
    right_hit: Option<(Fixed, Object)>,
)
    requires
        is_nearest_among(first, t_min, t_max, &ray, Some((t_left, owner))),
        is_nearest_among(second, t_min, t_left, &ray, right_hit),
        t_left.raw <= t_max.raw,
        forall|i: int| 0 <= i < second.len() ==> (#[trigger] second[i]).is_leaf(),
        right_hit matches Some((t, o)) ==> in_range(t, t_min, t_left),
    ensures
        is_nearest_among(
            first + second,
            t_min,
            t_max,
            &ray,
            match right_hit {
                None => Some((t_left, owner)),
                Some(hit) => Some(hit),
            },
        ),
        right_hit matches Some((t, o)) ==> in_range(t, t_min, t_max),
{
    let things = first + second;
    assert forall|i: int| 0 <= i < things.len() implies (i < first.len() ==> #[trigger] things[i] == first[i])
        && (i >= first.len() ==> things[i] == second[i - first.len()]) by {}
    assert forall|i: int| 0 <= i < second.len() implies (#[trigger] second[i]).reach(t_min, t_left, &ray)
        == restricted(second[i].reach(t_min, t_max, &ray), t_left) by {
        lemma_reach_restricts(second[i], t_min, t_max, t_left, ray);
    }
    match right_hit {
        None => {
            let k = choose|k: int| 0 <= k < first.len() && first[k] == owner;
            assert(things[k] == owner);
            assert forall|i: int| 0 <= i < things.len() implies ((#[trigger] things[i]).reach(
                t_min,
                t_max,
                &ray,
            ) matches Some(other) ==> t_left.raw <= other.raw) by {
                if i >= first.len() {
                    let j = i - first.len();
                    assert(second[j].reach(t_min, t_left, &ray) matches Some(other) ==> other == t_left);
                }
            }
        },
        Some((t_right, other_owner)) => {
            let k = choose|k: int| 0 <= k < second.len() && second[k] == other_owner;
            assert(things[k + first.len()] == other_owner);
            assert(second[k].reach(t_min, t_left, &ray) == restricted(
                second[k].reach(t_min, t_max, &ray),
                t_left,
            ));
            assert forall|i: int| 0 <= i < things.len() implies ((#[trigger] things[i]).reach(
                t_min,
                t_max,
                &ray,
            ) matches Some(other) ==> t_right.raw <= other.raw) by {
                if i >= first.len() {
                    let j = i - first.len();
                    assert(second[j].reach(t_min, t_left, &ray) == restricted(
                        second[j].reach(t_min, t_max, &ray),
                        t_left,
                    ));
                }
            }
        },
    }
}

} // verus!
