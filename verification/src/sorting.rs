//! Sorting the things of a scene by the low corner of their boxes along an axis.

use vstd::prelude::*;
use vstd::multiset::Multiset;
use crate::fixed::Fixed;
use crate::object::Object;

verus! {

/// The key by which a thing is sorted along `axis`: the raw coordinate of
/// the minimum corner of its box for the span from `time0` to `time1`.
pub open spec fn sort_key(thing: Object, axis: u32, time0: Fixed, time1: Fixed) -> int {
    thing.bounds(time0, time1).low_along(axis).raw as int
}

/// Whether the keys of `things` along `axis` never go down.
pub open spec fn is_sorted_along(things: Seq<Object>, axis: u32, time0: Fixed, time1: Fixed) -> bool {
    forall|i: int, j: int|
        0 <= i <= j < things.len() ==> sort_key(things[i], axis, time0, time1) <= sort_key(
            things[j],
            axis,
            time0,
            time1,
        )
}

/// The place at which a thing with key `key` enters `sorted`: before the
/// first thing whose key is not below `key`, and at the end where there is none.
pub open spec fn insertion_point(sorted: Seq<Object>, key: int, axis: u32, time0: Fixed, time1: Fixed) -> int
    decreases sorted.len(),
{
    if sorted.len() == 0 {
        0
    } else if sort_key(sorted[0], axis, time0, time1) >= key {
        0
    } else {
        1 + insertion_point(sorted.drop_first(), key, axis, time0, time1)
    }
}

/// `things` in the order of their keys along `axis`; things with equal keys
/// keep the order they had. The last thing is placed first, and each thing
/// before it enters at its insertion point in turn.
pub open spec fn sorted_along(things: Seq<Object>, axis: u32, time0: Fixed, time1: Fixed) -> Seq<Object>
    decreases things.len(),
{
    if things.len() == 0 {
        things
    } else {
        let rest = sorted_along(things.drop_first(), axis, time0, time1);
        rest.insert(insertion_point(rest, sort_key(things[0], axis, time0, time1), axis, time0, time1), things[0])
    }
}

/// The insertion point is the one place with only smaller keys before it
/// and no smaller key at it.
pub proof fn lemma_insertion_point(sorted: Seq<Object>, key: int, axis: u32, time0: Fixed, time1: Fixed, j: int)
    requires
        0 <= j <= sorted.len(),
        forall|i: int| 0 <= i < j ==> sort_key(#[trigger] sorted[i], axis, time0, time1) < key,
        j < sorted.len() ==> sort_key(sorted[j], axis, time0, time1) >= key,
    ensures
        insertion_point(sorted, key, axis, time0, time1) == j,
    decreases sorted.len(),
{
    if sorted.len() == 0 {
    } else if j == 0 {
    } else {
        assert(sort_key(sorted[0], axis, time0, time1) < key);
        let rest = sorted.drop_first();
        assert forall|i: int| 0 <= i < j - 1 implies sort_key(#[trigger] rest[i], axis, time0, time1) < key by {
            assert(rest[i] == sorted[i + 1]);
        }
        if j - 1 < rest.len() {
            assert(rest[j - 1] == sorted[j]);
        }
        lemma_insertion_point(rest, key, axis, time0, time1, j - 1);
    }
}

/// The insertion point lies within the sequence or at its end, with only
/// smaller keys before it and no smaller key at it.
pub proof fn lemma_insertion_point_bounds(sorted: Seq<Object>, key: int, axis: u32, time0: Fixed, time1: Fixed)
    ensures
        0 <= insertion_point(sorted, key, axis, time0, time1) <= sorted.len(),
        forall|i: int|
            0 <= i < insertion_point(sorted, key, axis, time0, time1) ==> sort_key(
                #[trigger] sorted[i],
                axis,
                time0,
                time1,
            ) < key,
        insertion_point(sorted, key, axis, time0, time1) < sorted.len() ==> sort_key(
            sorted[insertion_point(sorted, key, axis, time0, time1)],
            axis,
            time0,
            time1,
        ) >= key,
    decreases sorted.len(),
{
    if sorted.len() == 0 {
    } else if sort_key(sorted[0], axis, time0, time1) >= key {
    } else {
        let rest = sorted.drop_first();
        lemma_insertion_point_bounds(rest, key, axis, time0, time1);
        let p = insertion_point(rest, key, axis, time0, time1);
        assert forall|i: int| 0 <= i < p + 1 implies sort_key(#[trigger] sorted[i], axis, time0, time1) < key by {
            if i > 0 {
                assert(sorted[i] == rest[i - 1]);
            }
        }
        if p < rest.len() {
            assert(rest[p] == sorted[p + 1]);
        }
    }
}

/// Sorting keeps the things: the result holds each as often as the input
/// does, has the same length, and its keys never go down.
pub proof fn lemma_sorted_along(things: Seq<Object>, axis: u32, time0: Fixed, time1: Fixed)
    ensures
        sorted_along(things, axis, time0, time1).len() == things.len(),
        sorted_along(things, axis, time0, time1).to_multiset() == things.to_multiset(),
        is_sorted_along(sorted_along(things, axis, time0, time1), axis, time0, time1),
    decreases things.len(),
{
    broadcast use vstd::seq_lib::group_to_multiset_ensures;

    if things.len() == 0 {
    } else {
        let tail = things.drop_first();
        lemma_sorted_along(tail, axis, time0, time1);
        let rest = sorted_along(tail, axis, time0, time1);
        let key = sort_key(things[0], axis, time0, time1);
        let p = insertion_point(rest, key, axis, time0, time1);
        lemma_insertion_point_bounds(rest, key, axis, time0, time1);
        let out = rest.insert(p, things[0]);
        vstd::seq_lib::to_multiset_insert(rest, p, things[0]);
        assert(things == seq![things[0]] + tail);
        vstd::seq_lib::lemma_multiset_commutative(seq![things[0]], tail);
        assert(seq![things[0]].to_multiset() =~= Multiset::<Object>::empty().insert(things[0])) by {
            assert(seq![things[0]] == Seq::<Object>::empty().push(things[0]));
        }
        assert(out.to_multiset() =~= things.to_multiset());
        assert forall|i: int, j: int| 0 <= i <= j < out.len() implies sort_key(out[i], axis, time0, time1)
            <= sort_key(out[j], axis, time0, time1) by {
            if j < p {
                assert(out[i] == rest[i] && out[j] == rest[j]);
            } else if j == p {
                if i < p {
                    assert(out[i] == rest[i]);
                }
            } else {
                assert(out[j] == rest[j - 1]);
                assert(sort_key(rest[p], axis, time0, time1) <= sort_key(rest[j - 1], axis, time0, time1));
                if i < p {
                    assert(out[i] == rest[i]);
                } else if i > p {
                    assert(out[i] == rest[i - 1]);
                }
            }
        }
    }
}

/// The raw coordinate by which `thing` is sorted along `axis`.
pub fn low_key(thing: &Object, axis: u32, time0: Fixed, time1: Fixed) -> (key: i64)
    requires
        axis < 3,
    ensures
        key == sort_key(*thing, axis, time0, time1),
{
    let b = thing.bounding_box(time0, time1).unwrap();
    match axis {
        0 => b.minimum.0.x().raw,
        1 => b.minimum.0.y().raw,
        _ => b.minimum.0.z().raw,
    }
}

/// Sorts the things by their keys along `axis`; things with equal keys keep
/// the order they had.
pub fn sort_along(things: Vec<Object>, axis: u32, time0: Fixed, time1: Fixed) -> (out: Vec<Object>)
    requires
        axis < 3,
    ensures
        out@ == sorted_along(things@, axis, time0, time1),
        out@.len() == things@.len(),
        out@.to_multiset() == things@.to_multiset(),
        is_sorted_along(out@, axis, time0, time1),
{
    let ghost input = things@;
    let mut rest = things;
    let mut out: Vec<Object> = Vec::new();
    proof {
        assert(input.subrange(input.len() as int, input.len() as int) == Seq::<Object>::empty());
    }
    while rest.len() > 0
        invariant
            axis < 3,
            rest@ == input.subrange(0, rest@.len() as int),
            rest@.len() <= input.len(),
            out@ == sorted_along(
                input.subrange(rest@.len() as int, input.len() as int),
                axis,
                time0,
                time1,
            ),
        decreases rest.len(),
    {
        let ghost before = rest@;
        let ghost done = input.subrange(rest@.len() as int, input.len() as int);
        let thing = rest.pop().unwrap();
        let key = low_key(&thing, axis, time0, time1);
        let mut j: usize = 0;
        while j < out.len() && low_key(&out[j], axis, time0, time1) < key
            invariant
                axis < 3,
                0 <= j <= out.len(),
                key == sort_key(thing, axis, time0, time1),
                forall|i: int| 0 <= i < j ==> sort_key(#[trigger] out@[i], axis, time0, time1) < key,
            decreases out.len() - j,
        {
            j += 1;
        }
        proof {
            lemma_insertion_point(out@, key as int, axis, time0, time1, j as int);
            let now = input.subrange(rest@.len() as int, input.len() as int);
            assert(now[0] == thing);
            assert(now.drop_first() == done);
            assert(rest@ == input.subrange(0, rest@.len() as int));
        }
        out.insert(j, thing);
    }
    proof {
        assert(input.subrange(0, input.len() as int) == input);
        lemma_sorted_along(input, axis, time0, time1);
    }
    out
}

} // verus!
