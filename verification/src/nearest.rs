//! What a search finds: the nearest hit. A hierarchy whose boxes bound its
//! objects finds a hit at the distance at which the search of the plain list
//! finds one.
//!
//! The laws speak of tests that are functions of what they are asked: the
//! test of a box, the test of an object, and the comparison of distances.
//! Distances are ordered by a rank, an integer for each distance.

use crate::bvh::{nearer, upper, BVH};
use crate::sort::same_objects;
use vstd::prelude::*;

verus! {

/// What the test of an object answers.
pub open spec fn answer<D, R>(
    object_hit: spec_fn(usize, D, D) -> Option<(D, R)>,
    object: usize,
    low: D,
    high: D,
) -> Option<(D, R)> {
    object_hit(object, low, high)
}

/// The rank of the distance of what was found, if anything was.
pub open spec fn found_rank<D, R>(found: Option<(D, R)>, rank: spec_fn(D) -> int) -> Option<int> {
    match found {
        Some(hit) => Some(rank(hit.0)),
        None => None,
    }
}

/// The smaller of two ranks, of which either may be missing.
pub open spec fn least(one: Option<int>, other: Option<int>) -> Option<int> {
    match (one, other) {
        (None, _) => other,
        (_, None) => one,
        (Some(a), Some(b)) => if a <= b {
            one
        } else {
            other
        },
    }
}

/// The rank, if it lies below the bound.
pub open spec fn below(found: Option<int>, bound: int) -> Option<int> {
    match found {
        Some(r) => if r < bound {
            found
        } else {
            None
        },
        None => None,
    }
}

/// What was found, if its distance lies before the given one.
pub open spec fn before<D, R>(found: Option<(D, R)>, high: D, rank: spec_fn(D) -> int) -> Option<
    (D, R),
> {
    match found {
        Some(hit) => if rank(hit.0) < rank(high) {
            found
        } else {
            None
        },
        None => None,
    }
}

/// The rank of the nearest hit among the objects, in the interval from `low`
/// to `high`.
pub open spec fn best<D, R>(
    objects: Seq<usize>,
    low: D,
    high: D,
    object_hit: spec_fn(usize, D, D) -> Option<(D, R)>,
    rank: spec_fn(D) -> int,
) -> Option<int>
    decreases objects.len(),
{
    if objects.len() == 0 {
        None
    } else {
        least(
            best(objects.drop_last(), low, high, object_hit, rank),
            found_rank(answer(object_hit, objects.last(), low, high), rank),
        )
    }
}

/// Whether every hit lies in the interval in which it was searched.
pub open spec fn in_interval<D, R>(
    object_hit: spec_fn(usize, D, D) -> Option<(D, R)>,
    rank: spec_fn(D) -> int,
) -> bool {
    forall|object: usize, low: D, high: D|
        (#[trigger] answer(object_hit, object, low, high)) matches Some(hit) ==> rank(low) <= rank(
            hit.0,
        ) < rank(high)
}

/// Whether an object is hit at the nearest place in the interval: searched in
/// an interval that ends earlier, it is hit at the same place if that place
/// lies in the shorter interval, and not at all if it does not.
pub open spec fn nearest_first<D, R>(
    object_hit: spec_fn(usize, D, D) -> Option<(D, R)>,
    rank: spec_fn(D) -> int,
) -> bool {
    forall|object: usize, low: D, high: D, sooner: D|
        rank(low) <= rank(sooner) <= rank(high) ==> #[trigger] answer(
            object_hit,
            object,
            low,
            sooner,
        ) == before(#[trigger] answer(object_hit, object, low, high), sooner, rank)
}

/// Whether the ray meets the box in every interval in which it hits one of
/// the objects.
pub open spec fn box_bounds<B, D, R>(
    bbox: B,
    objects: Seq<usize>,
    box_hit: spec_fn(B, D, D) -> bool,
    object_hit: spec_fn(usize, D, D) -> Option<(D, R)>,
) -> bool {
    forall|i: int, low: D, high: D|
        0 <= i < objects.len() && (#[trigger] answer(object_hit, objects[i], low, high)) is Some
            ==> box_hit(bbox, low, high)
}

impl<B> BVH<B> {
    /// What a search of the hierarchy finds, where the tests are functions.
    pub open spec fn nearest<D, R>(
        self,
        low: D,
        high: D,
        box_hit: spec_fn(B, D, D) -> bool,
        object_hit: spec_fn(usize, D, D) -> Option<(D, R)>,
    ) -> Option<(D, R)>
        decreases self,
    {
        match self {
            BVH::Empty => None,
            BVH::Leaf { bbox, object } => if box_hit(bbox, low, high) {
                answer(object_hit, object, low, high)
            } else {
                None
            },
            BVH::Pair { bbox, first, second } => if box_hit(bbox, low, high) {
                let one = answer(object_hit, first, low, high);
                nearer(one, answer(object_hit, second, low, upper(one, high)))
            } else {
                None
            },
            BVH::Split { bbox, left, right } => if box_hit(bbox, low, high) {
                let one = left.nearest(low, high, box_hit, object_hit);
                nearer(one, right.nearest(low, upper(one, high), box_hit, object_hit))
            } else {
                None
            },
        }
    }

    /// Whether every box of the hierarchy bounds the objects below it.
    pub open spec fn bounding<D, R>(
        self,
        box_hit: spec_fn(B, D, D) -> bool,
        object_hit: spec_fn(usize, D, D) -> Option<(D, R)>,
    ) -> bool
        decreases self,
    {
        match self {
            BVH::Empty => true,
            BVH::Leaf { bbox, object } => box_bounds(bbox, self.objects(), box_hit, object_hit),
            BVH::Pair { bbox, first, second } => box_bounds(
                bbox,
                self.objects(),
                box_hit,
                object_hit,
            ),
            BVH::Split { bbox, left, right } => {
                &&& box_bounds(bbox, self.objects(), box_hit, object_hit)
                &&& left.bounding(box_hit, object_hit)
                &&& right.bounding(box_hit, object_hit)
            },
        }
    }
}

/// What a search of the first `count` objects of a scene finds by testing
/// each in turn, where the tests are functions: the first of the nearest
/// hits.
pub open spec fn list_nearest<D, R>(
    count: nat,
    low: D,
    high: D,
    object_hit: spec_fn(usize, D, D) -> Option<(D, R)>,
    closer: spec_fn(D, D) -> bool,
) -> Option<(D, R)>
    decreases count,
{
    if count == 0 {
        None
    } else {
        let so_far = list_nearest((count - 1) as nat, low, high, object_hit, closer);
        let hit = answer(object_hit, (count - 1) as usize, low, high);
        match (so_far, hit) {
            (_, None) => so_far,
            (None, Some(_)) => hit,
            (Some(best), Some(new)) => if closer(new.0, best.0) {
                hit
            } else {
                so_far
            },
        }
    }
}

/// The nearest hit among one object is the hit of that object.
pub proof fn lemma_best_of_one<D, R>(
    object: usize,
    low: D,
    high: D,
    object_hit: spec_fn(usize, D, D) -> Option<(D, R)>,
    rank: spec_fn(D) -> int,
)
    ensures
        best(seq![object], low, high, object_hit, rank) == found_rank(
            answer(object_hit, object, low, high),
            rank,
        ),
{
    let one = seq![object];
    let none = one.drop_last();
    assert(none.len() == 0);
    assert(best(none, low, high, object_hit, rank) is None);
    assert(one.last() == object);
}

/// The nearest hit among the objects of two lists is the nearer of the
/// nearest in each.
pub proof fn lemma_best_of_both<D, R>(
    lefts: Seq<usize>,
    rights: Seq<usize>,
    low: D,
    high: D,
    object_hit: spec_fn(usize, D, D) -> Option<(D, R)>,
    rank: spec_fn(D) -> int,
)
    ensures
        best(lefts + rights, low, high, object_hit, rank) == least(
            best(lefts, low, high, object_hit, rank),
            best(rights, low, high, object_hit, rank),
        ),
    decreases rights.len(),
{
    if rights.len() == 0 {
        assert(lefts + rights =~= lefts);
    } else {
        lemma_best_of_both(lefts, rights.drop_last(), low, high, object_hit, rank);
        assert((lefts + rights).drop_last() =~= lefts + rights.drop_last());
        assert((lefts + rights).last() == rights.last());
    }
}

/// The nearest hit among the objects is a hit of one of them, and no object
/// is hit nearer.
pub proof fn lemma_best_is_least<D, R>(
    objects: Seq<usize>,
    low: D,
    high: D,
    object_hit: spec_fn(usize, D, D) -> Option<(D, R)>,
    rank: spec_fn(D) -> int,
)
    ensures
        match best(objects, low, high, object_hit, rank) {
            Some(least) => {
                &&& exists|i: int|
                    0 <= i < objects.len() && found_rank(
                        #[trigger] answer(object_hit, objects[i], low, high),
                        rank,
                    ) == Some(least)
                &&& forall|i: int|
                    0 <= i < objects.len() ==> (found_rank(
                        #[trigger] answer(object_hit, objects[i], low, high),
                        rank,
                    ) matches Some(r) ==> least <= r)
            },
            None => forall|i: int|
                0 <= i < objects.len() ==> (#[trigger] answer(
                    object_hit,
                    objects[i],
                    low,
                    high,
                )) is None,
        },
    decreases objects.len(),
{
    if objects.len() > 0 {
        let front = objects.drop_last();
        lemma_best_is_least(front, low, high, object_hit, rank);
        let last = objects.len() - 1;
        assert(forall|i: int| 0 <= i < front.len() ==> front[i] == objects[i]);
        match best(objects, low, high, object_hit, rank) {
            Some(least) => {
                if found_rank(answer(object_hit, objects[last], low, high), rank) == Some(least) {
                } else {
                    let i = choose|i: int|
                        0 <= i < front.len() && found_rank(
                            #[trigger] answer(object_hit, front[i], low, high),
                            rank,
                        ) == Some(least);
                    assert(objects[i] == front[i]);
                }
                assert forall|i: int| 0 <= i < objects.len() implies (found_rank(
                    #[trigger] answer(object_hit, objects[i], low, high),
                    rank,
                ) matches Some(r) ==> least <= r) by {
                    if i < last {
                        assert(objects[i] == front[i]);
                    }
                }
            },
            None => {
                assert forall|i: int| 0 <= i < objects.len() implies (#[trigger] answer(
                    object_hit,
                    objects[i],
                    low,
                    high,
                )) is None by {
                    if i < last {
                        assert(objects[i] == front[i]);
                    }
                }
            },
        }
    }
}

/// The nearest hit among some objects does not depend on their order.
pub proof fn lemma_best_of_same_objects<D, R>(
    one: Seq<usize>,
    other: Seq<usize>,
    low: D,
    high: D,
    object_hit: spec_fn(usize, D, D) -> Option<(D, R)>,
    rank: spec_fn(D) -> int,
)
    requires
        same_objects(one, other),
    ensures
        best(one, low, high, object_hit, rank) == best(other, low, high, object_hit, rank),
{
    lemma_best_is_least(one, low, high, object_hit, rank);
    lemma_best_is_least(other, low, high, object_hit, rank);
    let a = best(one, low, high, object_hit, rank);
    let b = best(other, low, high, object_hit, rank);
    if let Some(m) = a {
        let i = choose|i: int|
            0 <= i < one.len() && found_rank(
                #[trigger] answer(object_hit, one[i], low, high),
                rank,
            ) == Some(m);
        assert(other.contains(one[i]));
        let j = choose|j: int| 0 <= j < other.len() && other[j] == one[i];
        assert(answer(object_hit, other[j], low, high) is Some);
    }
    if let Some(m) = b {
        let j = choose|j: int|
            0 <= j < other.len() && found_rank(
                #[trigger] answer(object_hit, other[j], low, high),
                rank,
            ) == Some(m);
        assert(one.contains(other[j]));
        let i = choose|i: int| 0 <= i < one.len() && one[i] == other[j];
        assert(answer(object_hit, one[i], low, high) is Some);
    }
}

/// In an interval that ends earlier, the nearest hit among the objects is the
/// same if it lies in the shorter interval, and there is none if it does
/// not.
pub proof fn lemma_best_before<D, R>(
    objects: Seq<usize>,
    low: D,
    high: D,
    sooner: D,
    object_hit: spec_fn(usize, D, D) -> Option<(D, R)>,
    rank: spec_fn(D) -> int,
)
    requires
        nearest_first(object_hit, rank),
        rank(low) <= rank(sooner) <= rank(high),
    ensures
        best(objects, low, sooner, object_hit, rank) == below(
            best(objects, low, high, object_hit, rank),
            rank(sooner),
        ),
    decreases objects.len(),
{
    if objects.len() > 0 {
        lemma_best_before(objects.drop_last(), low, high, sooner, object_hit, rank);
        let last = objects.last();
        assert(answer(object_hit, last, low, sooner) == before(
            answer(object_hit, last, low, high),
            sooner,
            rank,
        ));
    }
}

/// Where the ray misses a box that bounds the objects, it hits none of them.
pub proof fn lemma_best_outside_box<B, D, R>(
    bbox: B,
    objects: Seq<usize>,
    low: D,
    high: D,
    box_hit: spec_fn(B, D, D) -> bool,
    object_hit: spec_fn(usize, D, D) -> Option<(D, R)>,
    rank: spec_fn(D) -> int,
)
    requires
        box_bounds(bbox, objects, box_hit, object_hit),
        !box_hit(bbox, low, high),
    ensures
        best(objects, low, high, object_hit, rank) is None,
{
    lemma_best_is_least(objects, low, high, object_hit, rank);
    if let Some(m) = best(objects, low, high, object_hit, rank) {
        let i = choose|i: int|
            0 <= i < objects.len() && found_rank(
                #[trigger] answer(object_hit, objects[i], low, high),
                rank,
            ) == Some(m);
        assert(answer(object_hit, objects[i], low, high) is Some);
    }
}

/// The nearest hit among the objects lies in the interval.
pub proof fn lemma_best_in_interval<D, R>(
    objects: Seq<usize>,
    low: D,
    high: D,
    object_hit: spec_fn(usize, D, D) -> Option<(D, R)>,
    rank: spec_fn(D) -> int,
)
    requires
        in_interval(object_hit, rank),
    ensures
        best(objects, low, high, object_hit, rank) matches Some(r) ==> rank(low) <= r < rank(high),
{
    lemma_best_is_least(objects, low, high, object_hit, rank);
    if let Some(m) = best(objects, low, high, object_hit, rank) {
        let i = choose|i: int|
            0 <= i < objects.len() && found_rank(
                #[trigger] answer(object_hit, objects[i], low, high),
                rank,
            ) == Some(m);
        assert(answer(object_hit, objects[i], low, high) is Some);
    }
}

/// What two children find together, the second searched only before what
/// the first has found: the nearer of the nearest in each.
proof fn lemma_nearer_is_least<D, R>(
    one: Option<(D, R)>,
    other: Option<(D, R)>,
    first_best: Option<int>,
    second_best: Option<int>,
    low: D,
    high: D,
    rank: spec_fn(D) -> int,
)
    requires
        found_rank(one, rank) == first_best,
        one matches Some(hit) ==> rank(low) <= rank(hit.0) < rank(high),
        found_rank(other, rank) == below(second_best, rank(upper(one, high))),
        other matches Some(hit) ==> rank(low) <= rank(hit.0),
        second_best matches Some(r) ==> r < rank(high),
    ensures
        found_rank(nearer(one, other), rank) == least(first_best, second_best),
        nearer(one, other) matches Some(hit) ==> rank(low) <= rank(hit.0) < rank(high),
{
}

/// A hierarchy whose boxes bound its objects finds the nearest hit among
/// its objects, and finds it in the interval.
pub proof fn lemma_hierarchy_finds_best<B, D, R>(
    tree: BVH<B>,
    low: D,
    high: D,
    box_hit: spec_fn(B, D, D) -> bool,
    object_hit: spec_fn(usize, D, D) -> Option<(D, R)>,
    rank: spec_fn(D) -> int,
)
    requires
        in_interval(object_hit, rank),
        nearest_first(object_hit, rank),
        tree.bounding(box_hit, object_hit),
    ensures
        found_rank(tree.nearest(low, high, box_hit, object_hit), rank) == best(
            tree.objects(),
            low,
            high,
            object_hit,
            rank,
        ),
        tree.nearest(low, high, box_hit, object_hit) matches Some(hit) ==> rank(low) <= rank(hit.0)
            < rank(high),
    decreases tree,
{
    let found = tree.nearest(low, high, box_hit, object_hit);
    let objects = tree.objects();
    match tree {
        BVH::Empty => {
            assert(objects.len() == 0);
            assert(found is None);
        },
        BVH::Leaf { bbox, object } => {
            if box_hit(bbox, low, high) {
                assert(objects == seq![object]);
                lemma_best_of_one(object, low, high, object_hit, rank);
                assert(found == answer(object_hit, object, low, high));
            } else {
                lemma_best_outside_box(bbox, objects, low, high, box_hit, object_hit, rank);
                assert(found is None);
            }
        },
        BVH::Pair { bbox, first, second } => {
            if box_hit(bbox, low, high) {
                let one = answer(object_hit, first, low, high);
                let sooner = upper(one, high);
                let other = answer(object_hit, second, low, sooner);
                let lefts = seq![first];
                let rights = seq![second];
                assert(objects =~= lefts + rights);
                lemma_best_of_both(lefts, rights, low, high, object_hit, rank);
                lemma_best_of_one(first, low, high, object_hit, rank);
                lemma_best_of_one(second, low, high, object_hit, rank);
                lemma_best_of_one(second, low, sooner, object_hit, rank);
                assert(best(lefts, low, high, object_hit, rank) == found_rank(one, rank));
                lemma_best_in_interval(rights, low, high, object_hit, rank);
                if rank(low) <= rank(sooner) <= rank(high) {
                    lemma_best_before(rights, low, high, sooner, object_hit, rank);
                    assert(best(rights, low, sooner, object_hit, rank) == found_rank(other, rank));
                    lemma_nearer_is_least(
                        one,
                        other,
                        best(lefts, low, high, object_hit, rank),
                        best(rights, low, high, object_hit, rank),
                        low,
                        high,
                        rank,
                    );
                } else {
                    // The interval is empty: nothing is hit in it.
                    assert(one is None);
                    assert(other is None);
                    assert(answer(object_hit, second, low, high) is None);
                }
                assert(found == nearer(one, other));
            } else {
                lemma_best_outside_box(bbox, objects, low, high, box_hit, object_hit, rank);
                assert(found is None);
            }
        },
        BVH::Split { bbox, left, right } => {
            if box_hit(bbox, low, high) {
                let one = left.nearest(low, high, box_hit, object_hit);
                let sooner = upper(one, high);
                let other = right.nearest(low, sooner, box_hit, object_hit);
                lemma_hierarchy_finds_best(*left, low, high, box_hit, object_hit, rank);
                lemma_hierarchy_finds_best(*right, low, sooner, box_hit, object_hit, rank);
                lemma_best_of_both(left.objects(), right.objects(), low, high, object_hit, rank);
                lemma_best_in_interval(right.objects(), low, high, object_hit, rank);
                if rank(low) <= rank(sooner) <= rank(high) {
                    lemma_best_before(right.objects(), low, high, sooner, object_hit, rank);
                    lemma_nearer_is_least(
                        one,
                        other,
                        best(left.objects(), low, high, object_hit, rank),
                        best(right.objects(), low, high, object_hit, rank),
                        low,
                        high,
                        rank,
                    );
                } else {
                    assert(one is None);
                    assert(other is None);
                    lemma_hierarchy_finds_best(*right, low, high, box_hit, object_hit, rank);
                    assert(right.nearest(low, high, box_hit, object_hit) is None);
                }
                assert(found == nearer(one, other));
                assert(objects == left.objects() + right.objects());
            } else {
                lemma_best_outside_box(bbox, objects, low, high, box_hit, object_hit, rank);
                assert(found is None);
            }
        },
    }
}

/// The objects of a scene without the last are the objects of a scene with
/// one object less.
proof fn lemma_scene_drop_last(count: nat)
    requires
        count > 0,
    ensures
        crate::bvh::scene(count).drop_last() == crate::bvh::scene((count - 1) as nat),
        crate::bvh::scene(count).last() == (count - 1) as usize,
{
    assert(crate::bvh::scene(count).drop_last() =~= crate::bvh::scene((count - 1) as nat));
}

/// The search of a list finds the nearest hit among its objects, where
/// `closer` follows the ranks of the distances.
pub proof fn lemma_list_finds_best<D, R>(
    count: nat,
    low: D,
    high: D,
    object_hit: spec_fn(usize, D, D) -> Option<(D, R)>,
    closer: spec_fn(D, D) -> bool,
    rank: spec_fn(D) -> int,
)
    requires
        count <= usize::MAX,
        forall|a: D, b: D| #[trigger] closer(a, b) == (rank(a) < rank(b)),
    ensures
        found_rank(list_nearest(count, low, high, object_hit, closer), rank) == best(
            crate::bvh::scene(count),
            low,
            high,
            object_hit,
            rank,
        ),
    decreases count,
{
    if count > 0 {
        lemma_list_finds_best((count - 1) as nat, low, high, object_hit, closer, rank);
        lemma_scene_drop_last(count);
    }
}

/// The hierarchy and the plain list agree. Let every object be hit at the
/// nearest place of the interval in which it is searched, and let every box
/// of a hierarchy over the objects of a scene bound the objects below it.
/// Then, for any ray and interval, the hierarchy finds a hit if and only if
/// the search of the plain list finds one, and at the same distance.
pub proof fn lemma_hierarchy_agrees_with_list<B, D, R>(
    tree: BVH<B>,
    count: nat,
    low: D,
    high: D,
    box_hit: spec_fn(B, D, D) -> bool,
    object_hit: spec_fn(usize, D, D) -> Option<(D, R)>,
    closer: spec_fn(D, D) -> bool,
    rank: spec_fn(D) -> int,
)
    requires
        count <= usize::MAX,
        same_objects(crate::bvh::scene(count), tree.objects()),
        tree.bounding(box_hit, object_hit),
        in_interval(object_hit, rank),
        nearest_first(object_hit, rank),
        forall|a: D, b: D| #[trigger] closer(a, b) == (rank(a) < rank(b)),
    ensures
        found_rank(tree.nearest(low, high, box_hit, object_hit), rank) == found_rank(
            list_nearest(count, low, high, object_hit, closer),
            rank,
        ),
{
    lemma_hierarchy_finds_best(tree, low, high, box_hit, object_hit, rank);
    lemma_list_finds_best(count, low, high, object_hit, closer, rank);
    lemma_best_of_same_objects(
        crate::bvh::scene(count),
        tree.objects(),
        low,
        high,
        object_hit,
        rank,
    );
}

} // verus!

verus! {

/// Whether the test of a box answers as the function does.
pub open spec fn box_test_is<B, D, BH: Fn(&B, D, D) -> bool>(
    test: BH,
    box_hit: spec_fn(B, D, D) -> bool,
) -> bool {
    forall|bbox: B, low: D, high: D, met: bool| #[trigger]
        call_ensures(test, (&bbox, low, high), met) ==> met == box_hit(bbox, low, high)
}

/// Whether the test of an object, known by its place in the scene, answers
/// as the function does.
pub open spec fn object_test_is<D, R, OH: Fn(usize, D, D) -> Option<(D, R)>>(
    test: OH,
    object_hit: spec_fn(usize, D, D) -> Option<(D, R)>,
) -> bool {
    forall|object: usize, low: D, high: D, found: Option<(D, R)>| #[trigger]
        call_ensures(test, (object, low, high), found) ==> found == answer(
            object_hit,
            object,
            low,
            high,
        )
}

/// Whether the test of an object of the list answers as the function does
/// for the object's place.
pub open spec fn list_test_is<'a, T: 'a, D, R, OH: Fn(&'a T, D, D) -> Option<(D, R)>>(
    objects: Seq<T>,
    test: OH,
    object_hit: spec_fn(usize, D, D) -> Option<(D, R)>,
) -> bool {
    forall|place: int, low: D, high: D, found: Option<(D, R)>|
        0 <= place < objects.len() && #[trigger] call_ensures(
            test,
            (&objects[place], low, high),
            found,
        ) ==> found == answer(object_hit, place as usize, low, high)
}

/// Whether the comparison of distances answers as the function does.
pub open spec fn comparison_is<D, NF: Fn(&D, &D) -> bool>(
    test: NF,
    closer: spec_fn(D, D) -> bool,
) -> bool {
    forall|a: D, b: D, less: bool| #[trigger]
        call_ensures(test, (&a, &b), less) ==> less == closer(a, b)
}

/// Where the tests are functions, a search of the hierarchy comes to one
/// thing only: what `nearest` says.
pub proof fn lemma_hierarchy_search<B, D, R, BH: Fn(&B, D, D) -> bool, OH: Fn(usize, D, D) -> Option<(D, R)>>(
    tree: BVH<B>,
    low: D,
    high: D,
    box_test: BH,
    object_test: OH,
    found: Option<(D, R)>,
    box_hit: spec_fn(B, D, D) -> bool,
    object_hit: spec_fn(usize, D, D) -> Option<(D, R)>,
)
    requires
        tree.hits(low, high, box_test, object_test, found),
        box_test_is(box_test, box_hit),
        object_test_is(object_test, object_hit),
    ensures
        found == tree.nearest(low, high, box_hit, object_hit),
    decreases tree,
{
    match tree {
        BVH::Empty => {},
        BVH::Leaf { bbox, object } => {},
        BVH::Pair { bbox, first, second } => {
            if call_ensures(box_test, (&bbox, low, high), true) {
                let (one, other) = choose|one: Option<(D, R)>, other: Option<(D, R)>|
                    #![trigger nearer(one, other)]
                    call_ensures(object_test, (first, low, high), one) && call_ensures(
                        object_test,
                        (second, low, upper(one, high)),
                        other,
                    ) && found == nearer(one, other);
            }
        },
        BVH::Split { bbox, left, right } => {
            if call_ensures(box_test, (&bbox, low, high), true) {
                let (one, other) = choose|one: Option<(D, R)>, other: Option<(D, R)>|
                    #![trigger nearer(one, other)]
                    left.hits(low, high, box_test, object_test, one) && right.hits(
                        low,
                        upper(one, high),
                        box_test,
                        object_test,
                        other,
                    ) && found == nearer(one, other);
                lemma_hierarchy_search(
                    *left,
                    low,
                    high,
                    box_test,
                    object_test,
                    one,
                    box_hit,
                    object_hit,
                );
                lemma_hierarchy_search(
                    *right,
                    low,
                    upper(one, high),
                    box_test,
                    object_test,
                    other,
                    box_hit,
                    object_hit,
                );
            }
        },
    }
}

/// Where the tests are functions, a search of the list comes to one thing
/// only: what `list_nearest` says.
pub proof fn lemma_list_search<'a, T: 'a, D, R, OH: Fn(&'a T, D, D) -> Option<(D, R)>, NF: Fn(&D, &D) -> bool>(
    objects: Seq<T>,
    low: D,
    high: D,
    object_test: OH,
    closer_test: NF,
    found: Option<(D, R)>,
    object_hit: spec_fn(usize, D, D) -> Option<(D, R)>,
    closer: spec_fn(D, D) -> bool,
)
    requires
        objects.len() <= usize::MAX,
        crate::list::scanned(objects, low, high, object_test, closer_test, found),
        list_test_is(objects, object_test, object_hit),
        comparison_is(closer_test, closer),
    ensures
        found == list_nearest(objects.len(), low, high, object_hit, closer),
    decreases objects.len(),
{
    if objects.len() > 0 {
        let front = objects.drop_last();
        let (so_far, hit) = choose|so_far: Option<(D, R)>, hit: Option<(D, R)>|
            #[trigger] crate::list::scan_step(
                objects.last(),
                low,
                high,
                object_test,
                closer_test,
                so_far,
                hit,
                found,
            ) && crate::list::scanned(front, low, high, object_test, closer_test, so_far);
        assert forall|place: int, l: D, h: D, f: Option<(D, R)>|
            0 <= place < front.len() && #[trigger] call_ensures(
                object_test,
                (&front[place], l, h),
                f,
            ) implies f == answer(object_hit, place as usize, l, h) by {
            assert(front[place] == objects[place]);
        }
        lemma_list_search(front, low, high, object_test, closer_test, so_far, object_hit, closer);
        assert(objects.last() == objects[objects.len() - 1]);
        assert(hit == answer(object_hit, (objects.len() - 1) as usize, low, high));
    }
}

} // verus!

verus! {

/// Whether the box that `bound` gives for an object bounds the object: the
/// ray meets the box in every interval in which it hits the object.
pub open spec fn bounds_each<B, D, R, BF: Fn(usize) -> Option<B>>(
    bound: BF,
    box_hit: spec_fn(B, D, D) -> bool,
    object_hit: spec_fn(usize, D, D) -> Option<(D, R)>,
) -> bool {
    forall|object: usize, bbox: B, low: D, high: D|
        call_ensures(bound, (object,), Some(bbox)) && (#[trigger] answer(
            object_hit,
            object,
            low,
            high,
        )) is Some ==> #[trigger] met(box_hit, bbox, low, high)
}

/// Whether the box that `join` gives for two boxes bounds both: the ray
/// meets it in every interval in which it meets one of the two.
pub open spec fn join_bounds<B, D, JF: Fn(&B, &B) -> B>(
    join: JF,
    box_hit: spec_fn(B, D, D) -> bool,
) -> bool {
    forall|one: B, other: B, around: B, low: D, high: D|
        #[trigger] crate::bvh::joined(join, one, other, around) && (met(box_hit, one, low, high)
            || met(box_hit, other, low, high)) ==> #[trigger] met(box_hit, around, low, high)
}

/// Whether the ray meets the box in the interval.
pub open spec fn met<B, D>(box_hit: spec_fn(B, D, D) -> bool, bbox: B, low: D, high: D) -> bool {
    box_hit(bbox, low, high)
}

/// Boxes that bound. Let the box of every object bound the object, and let
/// the box around two boxes bound both. Then every box of a hierarchy that
/// was built from them bounds the objects below it.
pub proof fn lemma_built_boxes_bound<B, D, R, BF: Fn(usize) -> Option<B>, JF: Fn(&B, &B) -> B>(
    tree: BVH<B>,
    bound: BF,
    join: JF,
    box_hit: spec_fn(B, D, D) -> bool,
    object_hit: spec_fn(usize, D, D) -> Option<(D, R)>,
)
    requires
        tree.boxed(bound, join),
        bounds_each(bound, box_hit, object_hit),
        join_bounds(join, box_hit),
    ensures
        tree.bounding(box_hit, object_hit),
        tree.bounds() matches Some(bbox) ==> box_bounds(
            bbox,
            tree.objects(),
            box_hit,
            object_hit,
        ),
    decreases tree,
{
    let objects = tree.objects();
    match tree {
        BVH::Empty => {},
        BVH::Leaf { bbox, object } => {
            assert forall|i: int, low: D, high: D|
                0 <= i < objects.len() && (#[trigger] answer(
                    object_hit,
                    objects[i],
                    low,
                    high,
                )) is Some implies box_hit(bbox, low, high) by {
                assert(objects[i] == object);
                assert(met(box_hit, bbox, low, high));
            }
        },
        BVH::Pair { bbox, first, second } => {
            let (one, other) = choose|one: B, other: B|
                #[trigger] crate::bvh::pair_boxed(bound, join, first, second, one, other, bbox);
            assert forall|i: int, low: D, high: D|
                0 <= i < objects.len() && (#[trigger] answer(
                    object_hit,
                    objects[i],
                    low,
                    high,
                )) is Some implies box_hit(bbox, low, high) by {
                if i == 0 {
                    assert(objects[i] == first);
                    assert(met(box_hit, one, low, high));
                } else {
                    assert(objects[i] == second);
                    assert(met(box_hit, other, low, high));
                }
                assert(crate::bvh::joined(join, one, other, bbox));
                assert(met(box_hit, bbox, low, high));
            }
        },
        BVH::Split { bbox, left, right } => {
            lemma_built_boxes_bound(*left, bound, join, box_hit, object_hit);
            lemma_built_boxes_bound(*right, bound, join, box_hit, object_hit);
            let one = left.bounds()->Some_0;
            let other = right.bounds()->Some_0;
            assert forall|i: int, low: D, high: D|
                0 <= i < objects.len() && (#[trigger] answer(
                    object_hit,
                    objects[i],
                    low,
                    high,
                )) is Some implies box_hit(bbox, low, high) by {
                if i < left.objects().len() {
                    assert(objects[i] == left.objects()[i]);
                    assert(met(box_hit, one, low, high));
                } else {
                    assert(objects[i] == right.objects()[i - left.objects().len()]);
                    assert(met(box_hit, other, low, high));
                }
                assert(crate::bvh::joined(join, one, other, bbox));
                assert(met(box_hit, bbox, low, high));
            }
        },
    }
}

} // verus!

verus! {

/// The two searches agree. Take a hierarchy that was built over the objects
/// of a scene, from boxes that bound the objects and that are joined into
/// boxes that bound both, and let every object be hit at the nearest place
/// of the interval in which it is searched. Then what a search of the
/// hierarchy comes to and what a search of the plain list comes to lie at
/// the same distance, or both searches find nothing.
pub proof fn lemma_searches_agree<
    'a,
    T: 'a,
    B,
    D,
    R,
    BF: Fn(usize) -> Option<B>,
    JF: Fn(&B, &B) -> B,
    BH: Fn(&B, D, D) -> bool,
    OH: Fn(usize, D, D) -> Option<(D, R)>,
    LH: Fn(&'a T, D, D) -> Option<(D, R)>,
    NF: Fn(&D, &D) -> bool,
>(
    tree: BVH<B>,
    corners: Seq<crate::sort::MinCorner>,
    bound: BF,
    join: JF,
    objects: Seq<T>,
    low: D,
    high: D,
    box_test: BH,
    object_test: OH,
    list_test: LH,
    closer_test: NF,
    in_tree: Option<(D, R)>,
    in_list: Option<(D, R)>,
    box_hit: spec_fn(B, D, D) -> bool,
    object_hit: spec_fn(usize, D, D) -> Option<(D, R)>,
    closer: spec_fn(D, D) -> bool,
    rank: spec_fn(D) -> int,
)
    requires
        objects.len() <= usize::MAX,
        tree.built(crate::bvh::scene(objects.len()), corners, bound, join),
        tree.hits(low, high, box_test, object_test, in_tree),
        crate::list::scanned(objects, low, high, list_test, closer_test, in_list),
        box_test_is(box_test, box_hit),
        object_test_is(object_test, object_hit),
        list_test_is(objects, list_test, object_hit),
        comparison_is(closer_test, closer),
        bounds_each(bound, box_hit, object_hit),
        join_bounds(join, box_hit),
        in_interval(object_hit, rank),
        nearest_first(object_hit, rank),
        forall|a: D, b: D| #[trigger] closer(a, b) == (rank(a) < rank(b)),
    ensures
        found_rank(in_tree, rank) == found_rank(in_list, rank),
{
    lemma_built_boxes_bound(tree, bound, join, box_hit, object_hit);
    lemma_hierarchy_search(tree, low, high, box_test, object_test, in_tree, box_hit, object_hit);
    lemma_list_search(objects, low, high, list_test, closer_test, in_list, object_hit, closer);
    lemma_hierarchy_agrees_with_list(
        tree,
        objects.len(),
        low,
        high,
        box_hit,
        object_hit,
        closer,
        rank,
    );
}

} // verus!
