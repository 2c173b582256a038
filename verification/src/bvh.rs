//! The bounding volume hierarchy: a binary tree over the objects of a scene,
//! each node with a box that bounds what lies below it, so that a ray that
//! misses the box need not be tested against any of it.
//!
//! The hierarchy knows an object by its place in the scene's list, and a box,
//! a distance along a ray and the record of a hit as values that it hands
//! on: what they are, and how a ray is tested against a box or an object, is
//! the caller's business.

use crate::random::Random;
use crate::sort::{key_of, same_objects, sort_by_axis, stably_sorted, MinCorner};
use vstd::prelude::*;

verus! {

/// A hierarchy over some objects of a scene, with boxes of type `B`.
#[derive(Debug)]
pub enum BVH<B> {
    /// No object at all.
    Empty,
    /// One object, and its box.
    Leaf { bbox: B, object: usize },
    /// Two objects, and the box around both.
    Pair { bbox: B, first: usize, second: usize },
    /// Two hierarchies, and the box around both.
    Split { bbox: B, left: Box<BVH<B>>, right: Box<BVH<B>> },
}

/// The end of the interval in which the second of two children is searched:
/// the distance of what the first has found, or the end of the whole interval
/// where it has found nothing.
pub open spec fn upper<D, R>(found: Option<(D, R)>, high: D) -> D {
    match found {
        Some(hit) => hit.0,
        None => high,
    }
}

/// What two children have found together: what the second has found, which
/// was searched only before what the first had found, else what the first
/// has found.
pub open spec fn nearer<D, R>(first: Option<(D, R)>, second: Option<(D, R)>) -> Option<(D, R)> {
    if second is Some {
        second
    } else {
        first
    }
}

impl<B> BVH<B> {
    /// The objects of the hierarchy, from left to right.
    pub open spec fn objects(self) -> Seq<usize>
        decreases self,
    {
        match self {
            BVH::Empty => Seq::empty(),
            BVH::Leaf { bbox, object } => seq![object],
            BVH::Pair { bbox, first, second } => seq![first, second],
            BVH::Split { bbox, left, right } => left.objects() + right.objects(),
        }
    }

    /// The box around the whole hierarchy, if it holds any object.
    pub open spec fn bounds(self) -> Option<B> {
        match self {
            BVH::Empty => None,
            BVH::Leaf { bbox, object } => Some(bbox),
            BVH::Pair { bbox, first, second } => Some(bbox),
            BVH::Split { bbox, left, right } => Some(bbox),
        }
    }

    /// The box around the whole hierarchy, if it holds any object.
    pub fn bbox(&self) -> (bbox: Option<&B>)
        ensures
            match bbox {
                Some(b) => self.bounds() == Some(*b),
                None => self.bounds() is None,
            },
    {
        match self {
            BVH::Empty => None,
            BVH::Leaf { bbox, object } => Some(bbox),
            BVH::Pair { bbox, first, second } => Some(bbox),
            BVH::Split { bbox, left, right } => Some(bbox),
        }
    }

    /// Whether `found` is what a search of the hierarchy in the interval from
    /// `low` to `high` may come to, given what the tests of boxes and of
    /// objects may answer.
    ///
    /// A hierarchy whose box the ray misses gives nothing. Else the left
    /// child is searched in the whole interval, and the right child in the
    /// interval that ends where the left child was hit, so that it finds only
    /// what is nearer; what the right child finds is the answer, else what
    /// the left child has found.
    pub open spec fn hits<D, R, BH: Fn(&B, D, D) -> bool, OH: Fn(usize, D, D) -> Option<(D, R)>>(
        self,
        low: D,
        high: D,
        box_hit: BH,
        object_hit: OH,
        found: Option<(D, R)>,
    ) -> bool
        decreases self,
    {
        match self {
            BVH::Empty => found is None,
            BVH::Leaf { bbox, object } => {
                ||| call_ensures(box_hit, (&bbox, low, high), false) && found is None
                ||| call_ensures(box_hit, (&bbox, low, high), true) && call_ensures(
                    object_hit,
                    (object, low, high),
                    found,
                )
            },
            BVH::Pair { bbox, first, second } => {
                ||| call_ensures(box_hit, (&bbox, low, high), false) && found is None
                ||| call_ensures(box_hit, (&bbox, low, high), true) && exists|
                    one: Option<(D, R)>,
                    other: Option<(D, R)>,
                |
                    #![trigger nearer(one, other)]
                    call_ensures(object_hit, (first, low, high), one) && call_ensures(
                        object_hit,
                        (second, low, upper(one, high)),
                        other,
                    ) && found == nearer(one, other)
            },
            BVH::Split { bbox, left, right } => {
                ||| call_ensures(box_hit, (&bbox, low, high), false) && found is None
                ||| call_ensures(box_hit, (&bbox, low, high), true) && exists|
                    first: Option<(D, R)>,
                    second: Option<(D, R)>,
                |
                    #![trigger nearer(first, second)]
                    left.hits(low, high, box_hit, object_hit, first) && right.hits(
                        low,
                        upper(first, high),
                        box_hit,
                        object_hit,
                        second,
                    ) && found == nearer(first, second)
            },
        }
    }

    /// Searches the hierarchy for the nearest hit in the interval from `low`
    /// to `high`. `box_hit` tests the ray against a box in an interval;
    /// `object_hit` tests it against an object of the scene, and gives the
    /// distance of the hit and its record.
    pub fn hit<D: Copy, R, BH: Fn(&B, D, D) -> bool, OH: Fn(usize, D, D) -> Option<(D, R)>>(
        &self,
        low: D,
        high: D,
        box_hit: &BH,
        object_hit: &OH,
    ) -> (found: Option<(D, R)>)
        requires
            forall|b: &B, l: D, h: D| call_requires(*box_hit, (b, l, h)),
            forall|o: usize, l: D, h: D| call_requires(*object_hit, (o, l, h)),
        ensures
            self.hits(low, high, *box_hit, *object_hit, found),
        decreases self,
    {
        match self {
            BVH::Empty => None,
            BVH::Leaf { bbox, object } => {
                if !box_hit(bbox, low, high) {
                    return None;
                }
                object_hit(*object, low, high)
            },
            BVH::Pair { bbox, first, second } => {
                if !box_hit(bbox, low, high) {
                    return None;
                }
                let one = object_hit(*first, low, high);
                let end = match &one {
                    Some(hit) => hit.0,
                    None => high,
                };
                let other = object_hit(*second, low, end);
                let ghost witness = (one, other);
                let found = if other.is_some() {
                    other
                } else {
                    one
                };
                proof {
                    assert(found == nearer(witness.0, witness.1));
                }
                found
            },
            BVH::Split { bbox, left, right } => {
                if !box_hit(bbox, low, high) {
                    return None;
                }
                let first = left.hit(low, high, box_hit, object_hit);
                let end = match &first {
                    Some(hit) => hit.0,
                    None => high,
                };
                let second = right.hit(low, end, box_hit, object_hit);
                let ghost witness = (first, second);
                let found = if second.is_some() {
                    second
                } else {
                    first
                };
                proof {
                    assert(found == nearer(witness.0, witness.1));
                }
                found
            },
        }
    }
}

} // verus!

verus! {

/// The failure to build a hierarchy: an object of the scene has no bounding
/// box, so that it cannot be placed.
#[derive(Debug, Clone, Copy, PartialEq, Eq, Structural)]
pub struct NoBoundingBox {
    /// The place of the object in the scene's list.
    pub object: usize,
}

/// Whether no object of the first list lies behind an object of the second
/// along the axis, going by the minimum corners of their boxes.
pub open spec fn divides(
    lefts: Seq<usize>,
    rights: Seq<usize>,
    corners: Seq<MinCorner>,
    axis: usize,
) -> bool {
    forall|i: int, j: int|
        0 <= i < lefts.len() && 0 <= j < rights.len() ==> key_of(corners, #[trigger] lefts[i], axis)
            <= key_of(corners, #[trigger] rights[j], axis)
}

/// Whether `around` is a box that `join` may give for the two boxes.
pub open spec fn joined<B, JF: Fn(&B, &B) -> B>(join: JF, one: B, other: B, around: B) -> bool {
    call_ensures(join, (&one, &other), around)
}

/// Whether `one` and `other` are boxes that `bound` may give for the two
/// objects, and `around` is a box that `join` may give for the two boxes.
pub open spec fn pair_boxed<B, BF: Fn(usize) -> Option<B>, JF: Fn(&B, &B) -> B>(
    bound: BF,
    join: JF,
    first: usize,
    second: usize,
    one: B,
    other: B,
    around: B,
) -> bool {
    &&& call_ensures(bound, (first,), Some(one))
    &&& call_ensures(bound, (second,), Some(other))
    &&& joined(join, one, other, around)
}

/// Whether the function gives something for each of the objects, whenever it
/// is asked.
pub open spec fn never_fails<T, F: Fn(usize) -> Option<T>>(objects: Seq<usize>, f: F) -> bool {
    forall|o: usize, answer: Option<T>|
        objects.contains(o) && #[trigger] call_ensures(f, (o,), answer) ==> answer is Some
}

/// The objects of a scene with the given number of objects: each is known by
/// its place in the list.
pub open spec fn scene(count: nat) -> Seq<usize> {
    Seq::new(count, |i: int| i as usize)
}

impl<B> BVH<B> {
    /// Whether the hierarchy is cut as evenly as can be: one or two objects
    /// are not cut, and three or more are cut into halves, the left of which
    /// holds one object less where their number is odd.
    pub open spec fn balanced(self) -> bool
        decreases self,
    {
        match self {
            BVH::Split { bbox, left, right } => {
                &&& self.objects().len() >= 3
                &&& left.objects().len() == self.objects().len() / 2
                &&& left.balanced()
                &&& right.balanced()
            },
            _ => true,
        }
    }

    /// Whether every cut of the hierarchy goes across an axis: along it, no
    /// object on the left lies behind one on the right.
    pub open spec fn separated(self, corners: Seq<MinCorner>) -> bool
        decreases self,
    {
        match self {
            BVH::Split { bbox, left, right } => {
                &&& exists|axis: usize|
                    axis < 3 && #[trigger] divides(left.objects(), right.objects(), corners, axis)
                &&& left.separated(corners)
                &&& right.separated(corners)
            },
            _ => true,
        }
    }

    /// Whether the boxes of the hierarchy are what `bound` gave for the
    /// objects and what `join` made of the boxes of the two children.
    pub open spec fn boxed<BF: Fn(usize) -> Option<B>, JF: Fn(&B, &B) -> B>(
        self,
        bound: BF,
        join: JF,
    ) -> bool
        decreases self,
    {
        match self {
            BVH::Empty => true,
            BVH::Leaf { bbox, object } => call_ensures(bound, (object,), Some(bbox)),
            BVH::Pair { bbox, first, second } => {
                exists|one: B, other: B|
                    #[trigger] pair_boxed(bound, join, first, second, one, other, bbox)
            },
            BVH::Split { bbox, left, right } => {
                &&& left.boxed(bound, join)
                &&& right.boxed(bound, join)
                &&& left.bounds() matches Some(one)
                &&& right.bounds() matches Some(other)
                &&& joined(join, one, other, bbox)
            },
        }
    }

    /// Whether the hierarchy is one that `new` may build over the given
    /// objects: it holds each of them once, is cut evenly and across axes, and
    /// has the boxes that `bound` and `join` gave.
    pub open spec fn built<BF: Fn(usize) -> Option<B>, JF: Fn(&B, &B) -> B>(
        self,
        objects: Seq<usize>,
        corners: Seq<MinCorner>,
        bound: BF,
        join: JF,
    ) -> bool {
        &&& same_objects(objects, self.objects())
        &&& self.balanced()
        &&& self.separated(corners)
        &&& self.boxed(bound, join)
    }

    /// Builds the hierarchy over the objects of a scene, of which there are
    /// `count`. `corner` gives the minimum corner of an object's box, by which
    /// the objects are sorted; `bound` gives the box of an object that goes
    /// into the hierarchy; `join` gives the box around two boxes. Both
    /// `corner` and `bound` give nothing for an object without a bounding box,
    /// and the hierarchy is then not built.
    ///
    /// No object makes an empty hierarchy, one object a leaf, two objects a
    /// pair. Three or more are sorted along an axis drawn at random, cut in
    /// the middle, and each half is built in the same way.
    pub fn new<
        CF: Fn(usize) -> Option<MinCorner>,
        BF: Fn(usize) -> Option<B>,
        JF: Fn(&B, &B) -> B,
    >(count: usize, corner: &CF, bound: &BF, join: &JF) -> (built: Result<Self, NoBoundingBox>)
        requires
            forall|o: usize| o < count ==> call_requires(*corner, (o,)),
            forall|o: usize| o < count ==> call_requires(*bound, (o,)),
            forall|one: &B, other: &B| call_requires(*join, (one, other)),
        ensures
            match built {
                Ok(tree) => exists|corners: Seq<MinCorner>|
                    {
                        &&& #[trigger] tree.built(scene(count as nat), corners, *bound, *join)
                        &&& count >= 3 ==> corners.len() == count && forall|o: usize|
                            o < count ==> call_ensures(
                                *corner,
                                (o,),
                                Some(#[trigger] corners[o as int]),
                            )
                    },
                Err(error) => error.object < count && (call_ensures(
                    *bound,
                    (error.object,),
                    None,
                ) || (count >= 3 && call_ensures(*corner, (error.object,), None))),
            },
            never_fails(scene(count as nat), *bound) && never_fails(scene(count as nat), *corner)
                ==> built is Ok,
    {
        if count == 0 {
            proof {
                assert(BVH::<B>::Empty.objects() =~= scene(0));
                assert(BVH::<B>::Empty.built(scene(0), Seq::empty(), *bound, *join));
            }
            return Ok(BVH::Empty);
        }
        let mut objects: Vec<usize> = Vec::new();
        let mut corners: Vec<MinCorner> = Vec::new();
        let mut object: usize = 0;
        while object < count
            invariant
                object <= count,
                objects@ == scene(object as nat),
                count >= 3 ==> corners.len() == object,
                forall|o: usize| o < count ==> call_requires(*corner, (o,)),
                forall|o: usize|
                    o < object && count >= 3 ==> call_ensures(
                        *corner,
                        (o,),
                        Some(#[trigger] corners[o as int]),
                    ),
            decreases count - object,
        {
            if count >= 3 {
                match corner(object) {
                    Some(c) => {
                        corners.push(c);
                    },
                    None => {
                        proof {
                            assert(scene(count as nat)[object as int] == object);
                        }
                        return Err(NoBoundingBox { object });
                    },
                }
            }
            objects.push(object);
            proof {
                assert(objects@ =~= scene((object + 1) as nat));
            }
            object += 1;
        }
        proof {
            assert(scene(count as nat).no_duplicates());
        }
        let built = Self::new_internal(objects, &corners, bound, join);
        proof {
            if built is Ok {
                assert(built->Ok_0.built(scene(count as nat), corners@, *bound, *join));
            }
        }
        built
    }

    /// Builds the hierarchy over some objects of a scene, at least one.
    fn new_internal<BF: Fn(usize) -> Option<B>, JF: Fn(&B, &B) -> B>(
        objects: Vec<usize>,
        corners: &Vec<MinCorner>,
        bound: &BF,
        join: &JF,
    ) -> (built: Result<Self, NoBoundingBox>)
        requires
            objects.len() >= 1,
            objects@.no_duplicates(),
            objects.len() >= 3 ==> forall|i: int|
                0 <= i < objects.len() ==> #[trigger] objects[i] < corners.len(),
            forall|i: int| 0 <= i < objects.len() ==> call_requires(*bound, (#[trigger] objects[i],)),
            forall|one: &B, other: &B| call_requires(*join, (one, other)),
        ensures
            match built {
                Ok(tree) => tree.built(objects@, corners@, *bound, *join),
                Err(error) => objects@.contains(error.object) && call_ensures(
                    *bound,
                    (error.object,),
                    None,
                ),
            },
            never_fails(objects@, *bound) ==> built is Ok,
        decreases objects.len(),
    {
        let count = objects.len();
        if count == 1 {
            let object = objects[0];
            match bound(object) {
                Some(bbox) => {
                    let tree = BVH::Leaf { bbox, object };
                    proof {
                        assert(tree.objects() =~= objects@);
                        lemma_same_objects(objects@);
                    }
                    Ok(tree)
                },
                None => Err(NoBoundingBox { object }),
            }
        } else if count == 2 {
            let first = objects[0];
            let second = objects[1];
            let one = match bound(first) {
                Some(bbox) => bbox,
                None => {
                    return Err(NoBoundingBox { object: first });
                },
            };
            let other = match bound(second) {
                Some(bbox) => bbox,
                None => {
                    return Err(NoBoundingBox { object: second });
                },
            };
            let bbox = join(&one, &other);
            let tree = BVH::Pair { bbox, first, second };
            proof {
                assert(tree.objects() =~= objects@);
                lemma_same_objects(objects@);
                assert(pair_boxed(*bound, *join, first, second, one, other, bbox));
                assert(tree matches BVH::Pair { bbox: b, first: f, second: s } && b == bbox && f
                    == first && s == second);
            }
            Ok(tree)
        } else {
            let axis = random_axis();
            let (lefts, rights) = cut(&objects, corners, axis);
            proof {
                assert forall|i: int| 0 <= i < lefts.len() implies call_requires(
                    *bound,
                    (#[trigger] lefts[i],),
                ) && lefts[i] < corners.len() by {
                    assert(objects@.contains(lefts[i]));
                }
                assert forall|i: int| 0 <= i < rights.len() implies call_requires(
                    *bound,
                    (#[trigger] rights[i],),
                ) && rights[i] < corners.len() by {
                    assert(objects@.contains(rights[i]));
                }
            }
            let ghost left_objects = lefts@;
            let ghost right_objects = rights@;
            proof {
                if never_fails(objects@, *bound) {
                    assert forall|o: usize, answer: Option<B>|
                        left_objects.contains(o) && #[trigger] call_ensures(
                            *bound,
                            (o,),
                            answer,
                        ) implies answer is Some by {
                        let i = choose|i: int| 0 <= i < left_objects.len() && left_objects[i] == o;
                        assert(objects@.contains(left_objects[i]));
                    }
                    assert forall|o: usize, answer: Option<B>|
                        right_objects.contains(o) && #[trigger] call_ensures(
                            *bound,
                            (o,),
                            answer,
                        ) implies answer is Some by {
                        let i = choose|i: int|
                            0 <= i < right_objects.len() && right_objects[i] == o;
                        assert(objects@.contains(right_objects[i]));
                    }
                }
            }
            let left = match Self::new_internal(lefts, corners, bound, join) {
                Ok(tree) => tree,
                Err(error) => {
                    proof {
                        assert(left_objects.contains(error.object));
                        let i = choose|i: int|
                            0 <= i < left_objects.len() && left_objects[i] == error.object;
                        assert(objects@.contains(left_objects[i]));
                    }
                    return Err(error);
                },
            };
            let right = match Self::new_internal(rights, corners, bound, join) {
                Ok(tree) => tree,
                Err(error) => {
                    proof {
                        assert(right_objects.contains(error.object));
                        let i = choose|i: int|
                            0 <= i < right_objects.len() && right_objects[i] == error.object;
                        assert(objects@.contains(right_objects[i]));
                    }
                    return Err(error);
                },
            };
            proof {
                lemma_not_empty(left);
                lemma_not_empty(right);
            }
            let bbox = join(left.bbox().unwrap(), right.bbox().unwrap());
            let tree = BVH::Split { bbox, left: Box::new(left), right: Box::new(right) };
            proof {
                lemma_joined(
                    objects@,
                    left_objects,
                    right_objects,
                    left.objects(),
                    right.objects(),
                    corners@,
                    axis,
                );
                assert(divides(left.objects(), right.objects(), corners@, axis));
            }
            Ok(tree)
        }
    }
}

/// Cuts a list of objects in two across an axis: the objects are sorted along
/// the axis by the minimum corners of their boxes, those with equal corners
/// in the order in which they stand, and the sorted list is cut in the
/// middle. The first part is the shorter one where the number is odd.
pub fn cut(objects: &Vec<usize>, corners: &Vec<MinCorner>, axis: usize) -> (parts: (
    Vec<usize>,
    Vec<usize>,
))
    requires
        axis < 3,
        objects@.no_duplicates(),
        forall|i: int| 0 <= i < objects.len() ==> #[trigger] objects[i] < corners.len(),
    ensures
        stably_sorted(objects@, parts.0@ + parts.1@, corners@, axis),
        parts.0.len() == objects.len() / 2,
        parts.0@.no_duplicates(),
        parts.1@.no_duplicates(),
        forall|i: int| 0 <= i < parts.0.len() ==> objects@.contains(#[trigger] parts.0[i]),
        forall|i: int| 0 <= i < parts.1.len() ==> objects@.contains(#[trigger] parts.1[i]),
        divides(parts.0@, parts.1@, corners@, axis),
{
    let mut lefts = sort_by_axis(objects, corners, axis);
    let ghost sorted = lefts@;
    let middle = objects.len() / 2;
    let rights = lefts.split_off(middle);
    proof {
        lemma_halves(objects@, sorted, middle as int, corners@, axis);
        assert(lefts@ + rights@ =~= sorted);
    }
    (lefts, rights)
}

/// The axis across which a hierarchy is cut, drawn at random.
fn random_axis() -> (axis: usize)
    ensures
        axis < 3,
{
    let axes: Vec<usize> = vec![0, 1, 2];
    *Random::pick(&axes)
}

/// A list of distinct objects holds the same objects as itself.
proof fn lemma_same_objects(objects: Seq<usize>)
    requires
        objects.no_duplicates(),
    ensures
        same_objects(objects, objects),
{
}

/// A hierarchy that holds an object has a box.
proof fn lemma_not_empty<B>(tree: BVH<B>)
    requires
        tree.objects().len() > 0,
    ensures
        tree.bounds() is Some,
{
}

/// The two halves of a sorted list of distinct objects: each holds distinct
/// objects of the list, and no object of the first lies behind one of the
/// second.
proof fn lemma_halves(
    objects: Seq<usize>,
    sorted: Seq<usize>,
    middle: int,
    corners: Seq<MinCorner>,
    axis: usize,
)
    requires
        stably_sorted(objects, sorted, corners, axis),
        0 <= middle <= sorted.len(),
    ensures
        sorted.subrange(0, middle).no_duplicates(),
        sorted.subrange(middle, sorted.len() as int).no_duplicates(),
        forall|i: int| 0 <= i < middle ==> objects.contains(#[trigger] sorted.subrange(0, middle)[i]),
        forall|i: int|
            0 <= i < sorted.len() - middle ==> objects.contains(
                #[trigger] sorted.subrange(middle, sorted.len() as int)[i],
            ),
        divides(
            sorted.subrange(0, middle),
            sorted.subrange(middle, sorted.len() as int),
            corners,
            axis,
        ),
{
    let lefts = sorted.subrange(0, middle);
    let rights = sorted.subrange(middle, sorted.len() as int);
    assert forall|i: int| 0 <= i < middle implies objects.contains(#[trigger] lefts[i]) by {
        assert(lefts[i] == sorted[i]);
    }
    assert forall|i: int| 0 <= i < sorted.len() - middle implies objects.contains(
        #[trigger] rights[i],
    ) by {
        assert(rights[i] == sorted[middle + i]);
    }
    assert forall|i: int, j: int|
        0 <= i < lefts.len() && 0 <= j < rights.len() implies key_of(
        corners,
        #[trigger] lefts[i],
        axis,
    ) <= key_of(corners, #[trigger] rights[j], axis) by {
        assert(lefts[i] == sorted[i]);
        assert(rights[j] == sorted[middle + j]);
    }
}

/// Two hierarchies over the two halves of a list hold, one after the other,
/// the objects of the list, and the cut between the halves is the cut
/// between the hierarchies.
proof fn lemma_joined(
    objects: Seq<usize>,
    lefts: Seq<usize>,
    rights: Seq<usize>,
    left_leaves: Seq<usize>,
    right_leaves: Seq<usize>,
    corners: Seq<MinCorner>,
    axis: usize,
)
    requires
        same_objects(objects, lefts + rights),
        divides(lefts, rights, corners, axis),
        same_objects(lefts, left_leaves),
        same_objects(rights, right_leaves),
    ensures
        same_objects(objects, left_leaves + right_leaves),
        divides(left_leaves, right_leaves, corners, axis),
{
    let sorted = lefts + rights;
    let middle = lefts.len() as int;
    let leaves = left_leaves + right_leaves;
    assert forall|i: int, j: int|
        0 <= i < left_leaves.len() && 0 <= j < right_leaves.len() implies key_of(
        corners,
        #[trigger] left_leaves[i],
        axis,
    ) <= key_of(corners, #[trigger] right_leaves[j], axis) by {
        assert(lefts.contains(left_leaves[i]));
        assert(rights.contains(right_leaves[j]));
        let a = choose|a: int| 0 <= a < lefts.len() && lefts[a] == left_leaves[i];
        let b = choose|b: int| 0 <= b < rights.len() && rights[b] == right_leaves[j];
        assert(key_of(corners, lefts[a], axis) <= key_of(corners, rights[b], axis));
    }
    assert forall|i: int| 0 <= i < leaves.len() implies objects.contains(#[trigger] leaves[i]) by {
        if i < left_leaves.len() {
            assert(leaves[i] == left_leaves[i]);
            assert(lefts.contains(left_leaves[i]));
            let a = choose|a: int| 0 <= a < lefts.len() && lefts[a] == left_leaves[i];
            assert(sorted[a] == lefts[a]);
            assert(objects.contains(sorted[a]));
        } else {
            let k = i - left_leaves.len();
            assert(leaves[i] == right_leaves[k]);
            assert(rights.contains(right_leaves[k]));
            let b = choose|b: int| 0 <= b < rights.len() && rights[b] == right_leaves[k];
            assert(sorted[middle + b] == rights[b]);
            assert(objects.contains(sorted[middle + b]));
        }
    }
    assert forall|i: int| 0 <= i < objects.len() implies leaves.contains(#[trigger] objects[i]) by {
        assert(sorted.contains(objects[i]));
        let s = choose|s: int| 0 <= s < sorted.len() && sorted[s] == objects[i];
        if s < middle {
            assert(lefts[s] == sorted[s]);
            assert(left_leaves.contains(lefts[s]));
            let a = choose|a: int| 0 <= a < left_leaves.len() && left_leaves[a] == lefts[s];
            assert(leaves[a] == objects[i]);
        } else {
            assert(rights[s - middle] == sorted[s]);
            assert(right_leaves.contains(rights[s - middle]));
            let b = choose|b: int|
                0 <= b < right_leaves.len() && right_leaves[b] == rights[s - middle];
            assert(leaves[left_leaves.len() + b] == objects[i]);
        }
    }
    assert(leaves.no_duplicates()) by {
        assert forall|i: int, j: int| 0 <= i < leaves.len() && 0 <= j < leaves.len() && i
            != j implies leaves[i] != leaves[j] by {
            if i < left_leaves.len() && j < left_leaves.len() {
                assert(leaves[i] == left_leaves[i] && leaves[j] == left_leaves[j]);
            } else if i >= left_leaves.len() && j >= left_leaves.len() {
                assert(leaves[i] == right_leaves[i - left_leaves.len()]);
                assert(leaves[j] == right_leaves[j - left_leaves.len()]);
            } else {
                // One from each half: they stand at different places of the
                // sorted list.
                let (l, r) = if i < left_leaves.len() {
                    (i, j - left_leaves.len())
                } else {
                    (j, i - left_leaves.len())
                };
                assert(lefts.contains(left_leaves[l]));
                assert(rights.contains(right_leaves[r]));
                let a = choose|a: int| 0 <= a < lefts.len() && lefts[a] == left_leaves[l];
                let b = choose|b: int| 0 <= b < rights.len() && rights[b] == right_leaves[r];
                assert(sorted[a] == lefts[a]);
                assert(sorted[middle + b] == rights[b]);
            }
        }
    }
}

} // verus!

verus! {

/// Two to the power of a number.
pub open spec fn two_to(exponent: nat) -> nat
    decreases exponent,
{
    if exponent == 0 {
        1
    } else {
        2 * two_to((exponent - 1) as nat)
    }
}

impl<B> BVH<B> {
    /// The number of boxes on the longest way from the top of the hierarchy
    /// down to an object.
    pub open spec fn depth(self) -> nat
        decreases self,
    {
        match self {
            BVH::Empty => 0,
            BVH::Leaf { bbox, object } => 1,
            BVH::Pair { bbox, first, second } => 1,
            BVH::Split { bbox, left, right } => if left.depth() >= right.depth() {
                1 + left.depth()
            } else {
                1 + right.depth()
            },
        }
    }

    /// A hierarchy that is cut evenly is shallow: over one or two objects it
    /// has a single box, and over more objects its depth grows by one only
    /// where their number doubles.
    pub proof fn lemma_balanced_is_shallow(self)
        requires
            self.balanced(),
        ensures
            self.objects().len() == 0 ==> self.depth() == 0,
            1 <= self.objects().len() <= 2 ==> self.depth() == 1,
            self.objects().len() >= 3 ==> self.depth() >= 2 && two_to((self.depth() - 1) as nat)
                <= self.objects().len() - 1,
        decreases self,
    {
        match self {
            BVH::Split { bbox, left, right } => {
                left.lemma_balanced_is_shallow();
                right.lemma_balanced_is_shallow();
                let count = self.objects().len();
                assert(count == left.objects().len() + right.objects().len());
                assert(two_to(1) == 2) by {
                    reveal_with_fuel(two_to, 2);
                }
                assert(two_to(self.depth() as nat) == 2 * two_to((self.depth() - 1) as nat));
                if left.depth() >= 2 {
                    assert(two_to(left.depth()) == 2 * two_to((left.depth() - 1) as nat));
                }
                if right.depth() >= 2 {
                    assert(two_to(right.depth()) == 2 * two_to((right.depth() - 1) as nat));
                }
            },
            _ => {},
        }
    }
}

} // verus!
