//! The order in which a hierarchy is cut: objects sorted along an axis by the
//! minimum corner of their boxes.

use vstd::prelude::*;

verus! {

/// The minimum corner of an object's bounding box, each coordinate given by
/// an integer that orders as the coordinates do.
#[derive(Debug, Clone, Copy, PartialEq, Eq, Structural)]
pub struct MinCorner {
    pub x: i64,
    pub y: i64,
    pub z: i64,
}

impl MinCorner {
    /// The coordinate on an axis: 0 for x, 1 for y, 2 for z.
    pub open spec fn spec_on(&self, axis: usize) -> i64 {
        if axis == 0 {
            self.x
        } else if axis == 1 {
            self.y
        } else {
            self.z
        }
    }

    /// The coordinate on an axis: 0 for x, 1 for y, 2 for z.
    #[verifier::when_used_as_spec(spec_on)]
    pub fn on(&self, axis: usize) -> (coordinate: i64)
        requires
            axis < 3,
        ensures
            coordinate == self.on(axis),
    {
        if axis == 0 {
            self.x
        } else if axis == 1 {
            self.y
        } else {
            self.z
        }
    }
}

/// The coordinate by which an object is sorted along an axis.
pub open spec fn key_of(corners: Seq<MinCorner>, object: usize, axis: usize) -> i64 {
    corners[object as int].on(axis)
}

/// Whether the objects are in ascending order of their corners along the
/// axis.
pub open spec fn sorted_along(objects: Seq<usize>, corners: Seq<MinCorner>, axis: usize) -> bool {
    forall|i: int, j: int|
        0 <= i < j < objects.len() ==> key_of(corners, #[trigger] objects[i], axis) <= key_of(
            corners,
            #[trigger] objects[j],
            axis,
        )
}

/// Whether two lists hold the same objects, each of them once.
pub open spec fn same_objects(before: Seq<usize>, after: Seq<usize>) -> bool {
    &&& before.len() == after.len()
    &&& before.no_duplicates()
    &&& after.no_duplicates()
    &&& forall|i: int| 0 <= i < before.len() ==> after.contains(#[trigger] before[i])
    &&& forall|i: int| 0 <= i < after.len() ==> before.contains(#[trigger] after[i])
}

/// Whether objects with equal corners along the axis stand in `after` in the
/// order in which they stood in `before`.
pub open spec fn keeps_ties(
    before: Seq<usize>,
    after: Seq<usize>,
    corners: Seq<MinCorner>,
    axis: usize,
) -> bool {
    forall|i: int, j: int, a: int, b: int|
        0 <= i < j < after.len() && 0 <= a < before.len() && 0 <= b < before.len() && #[trigger] before[a]
            == #[trigger] after[i] && #[trigger] before[b] == #[trigger] after[j] && key_of(
            corners,
            after[i],
            axis,
        ) == key_of(corners, after[j], axis) ==> a < b
}

/// Whether `after` is `before` sorted along the axis by a stable sort: the
/// same objects, in ascending order of their corners, those with equal
/// corners in the order in which they came.
pub open spec fn stably_sorted(
    before: Seq<usize>,
    after: Seq<usize>,
    corners: Seq<MinCorner>,
    axis: usize,
) -> bool {
    &&& same_objects(before, after)
    &&& sorted_along(after, corners, axis)
    &&& keeps_ties(before, after, corners, axis)
}

/// Sorts objects along an axis by the minimum corners of their boxes. The
/// sort is stable: objects whose corners are equal along the axis keep their
/// order.
pub fn sort_by_axis(objects: &Vec<usize>, corners: &Vec<MinCorner>, axis: usize) -> (sorted: Vec<
    usize,
>)
    requires
        axis < 3,
        objects@.no_duplicates(),
        forall|i: int| 0 <= i < objects.len() ==> #[trigger] objects[i] < corners.len(),
    ensures
        stably_sorted(objects@, sorted@, corners@, axis),
    decreases objects.len(),
{
    let count = objects.len();
    if count <= 1 {
        let sorted = copy_of(objects, 0, count);
        proof {
            assert(sorted@ =~= objects@);
        }
        return sorted;
    }
    let middle = count / 2;
    let lows = copy_of(objects, 0, middle);
    let highs = copy_of(objects, middle, count);
    proof {
        lemma_halves_are_distinct(objects@, middle as int);
    }
    let left = sort_by_axis(&lows, corners, axis);
    let right = sort_by_axis(&highs, corners, axis);
    merge(&left, &right, corners, axis, Ghost(objects@), Ghost(middle as int))
}

/// The objects of a list from one place up to another.
fn copy_of(objects: &Vec<usize>, from: usize, to: usize) -> (part: Vec<usize>)
    requires
        from <= to <= objects.len(),
    ensures
        part@ == objects@.subrange(from as int, to as int),
{
    let mut part: Vec<usize> = Vec::new();
    let mut next = from;
    while next < to
        invariant
            from <= next <= to <= objects.len(),
            part@ == objects@.subrange(from as int, next as int),
        decreases to - next,
    {
        part.push(objects[next]);
        proof {
            assert(part@ =~= objects@.subrange(from as int, next + 1));
        }
        next += 1;
    }
    part
}

/// The place of an object in a list that holds it.
pub open spec fn place_of(objects: Seq<usize>, object: usize) -> int {
    choose|place: int| 0 <= place < objects.len() && objects[place] == object
}

/// Whether the first object stands before the second in the stable order of
/// the list along the axis: its corner is smaller, or the corners are equal
/// and it stands at an earlier place of the list.
pub open spec fn stands_before(
    objects: Seq<usize>,
    corners: Seq<MinCorner>,
    axis: usize,
    one: usize,
    other: usize,
) -> bool {
    key_of(corners, one, axis) < key_of(corners, other, axis) || (key_of(corners, one, axis)
        == key_of(corners, other, axis) && place_of(objects, one) < place_of(objects, other))
}

/// Whether the objects stand in the stable order of the list: each before
/// all that follow it.
pub open spec fn in_stable_order(
    objects: Seq<usize>,
    sorted: Seq<usize>,
    corners: Seq<MinCorner>,
    axis: usize,
) -> bool {
    forall|i: int, j: int|
        0 <= i < j < sorted.len() ==> stands_before(
            objects,
            corners,
            axis,
            #[trigger] sorted[i],
            #[trigger] sorted[j],
        )
}

/// In a list of distinct objects, an object has one place only.
pub proof fn lemma_place_of(objects: Seq<usize>, place: int)
    requires
        objects.no_duplicates(),
        0 <= place < objects.len(),
    ensures
        place_of(objects, objects[place]) == place,
{
}

/// A stable sort puts the objects in the stable order of the list, and what
/// holds the objects of the list in its stable order is a stable sort of it.
pub proof fn lemma_stable_order(
    objects: Seq<usize>,
    sorted: Seq<usize>,
    corners: Seq<MinCorner>,
    axis: usize,
)
    requires
        same_objects(objects, sorted),
    ensures
        stably_sorted(objects, sorted, corners, axis) <==> in_stable_order(
            objects,
            sorted,
            corners,
            axis,
        ),
{
    if stably_sorted(objects, sorted, corners, axis) {
        assert forall|i: int, j: int| 0 <= i < j < sorted.len() implies stands_before(
            objects,
            corners,
            axis,
            #[trigger] sorted[i],
            #[trigger] sorted[j],
        ) by {
            assert(objects.contains(sorted[i]) && objects.contains(sorted[j]));
            let a = place_of(objects, sorted[i]);
            let b = place_of(objects, sorted[j]);
            assert(objects[a] == sorted[i] && objects[b] == sorted[j]);
        }
    }
    if in_stable_order(objects, sorted, corners, axis) {
        assert forall|i: int, j: int, a: int, b: int|
            0 <= i < j < sorted.len() && 0 <= a < objects.len() && 0 <= b < objects.len() && #[trigger] objects[a]
                == #[trigger] sorted[i] && #[trigger] objects[b] == #[trigger] sorted[j] && key_of(
                corners,
                sorted[i],
                axis,
            ) == key_of(corners, sorted[j], axis) implies a < b by {
            lemma_place_of(objects, a);
            lemma_place_of(objects, b);
            assert(stands_before(objects, corners, axis, sorted[i], sorted[j]));
        }
        assert forall|i: int, j: int| 0 <= i < j < sorted.len() implies key_of(
            corners,
            #[trigger] sorted[i],
            axis,
        ) <= key_of(corners, #[trigger] sorted[j], axis) by {
            assert(stands_before(objects, corners, axis, sorted[i], sorted[j]));
        }
    }
}

/// The two halves of a list of distinct objects hold distinct objects.
proof fn lemma_halves_are_distinct(objects: Seq<usize>, middle: int)
    requires
        objects.no_duplicates(),
        0 <= middle <= objects.len(),
    ensures
        objects.subrange(0, middle).no_duplicates(),
        objects.subrange(middle, objects.len() as int).no_duplicates(),
{
}

/// Whether the objects of the sorted half are those of a half of the list,
/// in the stable order of the list, the half being the places from `from` up
/// to `to`.
spec fn half_sorted(
    objects: Seq<usize>,
    from: int,
    to: int,
    sorted: Seq<usize>,
    corners: Seq<MinCorner>,
    axis: usize,
) -> bool {
    &&& sorted.len() == to - from
    &&& sorted.no_duplicates()
    &&& forall|i: int|
        0 <= i < sorted.len() ==> from <= #[trigger] place_of(objects, sorted[i]) < to
            && objects[place_of(objects, sorted[i])] == sorted[i]
    &&& forall|place: int| from <= place < to ==> sorted.contains(#[trigger] objects[place])
    &&& in_stable_order(objects, sorted, corners, axis)
}

/// A stable sort of a half of the list holds the objects of that half in the
/// stable order of the whole list.
proof fn lemma_half_sorted(
    objects: Seq<usize>,
    from: int,
    to: int,
    sorted: Seq<usize>,
    corners: Seq<MinCorner>,
    axis: usize,
)
    requires
        objects.no_duplicates(),
        0 <= from <= to <= objects.len(),
        stably_sorted(objects.subrange(from, to), sorted, corners, axis),
    ensures
        half_sorted(objects, from, to, sorted, corners, axis),
{
    let half = objects.subrange(from, to);
    lemma_stable_order(half, sorted, corners, axis);
    assert forall|i: int| 0 <= i < sorted.len() implies from <= #[trigger] place_of(
        objects,
        sorted[i],
    ) < to && objects[place_of(objects, sorted[i])] == sorted[i] && place_of(objects, sorted[i])
        == from + place_of(half, sorted[i]) by {
        assert(half.contains(sorted[i]));
        let p = place_of(half, sorted[i]);
        assert(half[p] == objects[from + p]);
        lemma_place_of(objects, from + p);
    }
    assert forall|place: int| from <= place < to implies sorted.contains(
        #[trigger] objects[place],
    ) by {
        assert(half[place - from] == objects[place]);
    }
    assert forall|i: int, j: int| 0 <= i < j < sorted.len() implies stands_before(
        objects,
        corners,
        axis,
        #[trigger] sorted[i],
        #[trigger] sorted[j],
    ) by {
        assert(stands_before(half, corners, axis, sorted[i], sorted[j]));
        assert(place_of(objects, sorted[i]) == from + place_of(half, sorted[i]));
        assert(place_of(objects, sorted[j]) == from + place_of(half, sorted[j]));
    }
}

/// Whether what was merged so far is as it should be: it holds the first
/// `i` objects of the left half and the first `j` of the right, in the
/// stable order of the list, and each of them stands before all that are
/// still to come.
spec fn merged_so_far(
    objects: Seq<usize>,
    left: Seq<usize>,
    right: Seq<usize>,
    i: int,
    j: int,
    out: Seq<usize>,
    corners: Seq<MinCorner>,
    axis: usize,
) -> bool {
    &&& out.len() == i + j
    &&& forall|k: int|
        0 <= k < out.len() ==> left.take(i).contains(#[trigger] out[k]) || right.take(j).contains(
            out[k],
        )
    &&& forall|p: int| 0 <= p < i ==> out.contains(#[trigger] left[p])
    &&& forall|q: int| 0 <= q < j ==> out.contains(#[trigger] right[q])
    &&& in_stable_order(objects, out, corners, axis)
    &&& forall|k: int, p: int|
        0 <= k < out.len() && i <= p < left.len() ==> stands_before(
            objects,
            corners,
            axis,
            #[trigger] out[k],
            #[trigger] left[p],
        )
    &&& forall|k: int, q: int|
        0 <= k < out.len() && j <= q < right.len() ==> stands_before(
            objects,
            corners,
            axis,
            #[trigger] out[k],
            #[trigger] right[q],
        )
}

/// Merges the two sorted halves of a list into the sorted list: of the two
/// objects that come next the left one is taken unless the right one has the
/// smaller corner.
fn merge(
    left: &Vec<usize>,
    right: &Vec<usize>,
    corners: &Vec<MinCorner>,
    axis: usize,
    Ghost(objects): Ghost<Seq<usize>>,
    Ghost(middle): Ghost<int>,
) -> (sorted: Vec<usize>)
    requires
        axis < 3,
        objects.no_duplicates(),
        0 <= middle <= objects.len(),
        forall|i: int| 0 <= i < objects.len() ==> #[trigger] objects[i] < corners.len(),
        stably_sorted(objects.subrange(0, middle), left@, corners@, axis),
        stably_sorted(objects.subrange(middle, objects.len() as int), right@, corners@, axis),
    ensures
        stably_sorted(objects, sorted@, corners@, axis),
{
    proof {
        lemma_half_sorted(objects, 0, middle, left@, corners@, axis);
        lemma_half_sorted(objects, middle, objects.len() as int, right@, corners@, axis);
    }
    let mut sorted: Vec<usize> = Vec::new();
    let mut i: usize = 0;
    let mut j: usize = 0;
    while i < left.len() || j < right.len()
        invariant
            axis < 3,
            i <= left.len(),
            j <= right.len(),
            objects.no_duplicates(),
            0 <= middle <= objects.len(),
            forall|k: int| 0 <= k < objects.len() ==> #[trigger] objects[k] < corners.len(),
            half_sorted(objects, 0, middle, left@, corners@, axis),
            half_sorted(objects, middle, objects.len() as int, right@, corners@, axis),
            merged_so_far(objects, left@, right@, i as int, j as int, sorted@, corners@, axis),
        decreases left.len() - i + right.len() - j,
    {
        let ghost before = sorted@;
        let take_left = if j == right.len() {
            true
        } else if i == left.len() {
            false
        } else {
            proof {
                let l = left@[i as int];
                let r = right@[j as int];
                assert(objects[place_of(objects, l)] == l);
                assert(objects[place_of(objects, r)] == r);
            }
            corners[left[i]].on(axis) <= corners[right[j]].on(axis)
        };
        if take_left {
            let object = left[i];
            sorted.push(object);
            proof {
                lemma_merge_step(
                    objects,
                    middle,
                    left@,
                    right@,
                    i as int,
                    j as int,
                    before,
                    corners@,
                    axis,
                    true,
                );
            }
            i += 1;
        } else {
            let object = right[j];
            sorted.push(object);
            proof {
                lemma_merge_step(
                    objects,
                    middle,
                    left@,
                    right@,
                    i as int,
                    j as int,
                    before,
                    corners@,
                    axis,
                    false,
                );
            }
            j += 1;
        }
    }
    proof {
        lemma_merged(objects, middle, left@, right@, sorted@, corners@, axis);
    }
    sorted
}

/// One step of merging keeps what was merged as it should be.
proof fn lemma_merge_step(
    objects: Seq<usize>,
    middle: int,
    left: Seq<usize>,
    right: Seq<usize>,
    i: int,
    j: int,
    out: Seq<usize>,
    corners: Seq<MinCorner>,
    axis: usize,
    take_left: bool,
)
    requires
        objects.no_duplicates(),
        0 <= middle <= objects.len(),
        0 <= i <= left.len(),
        0 <= j <= right.len(),
        half_sorted(objects, 0, middle, left, corners, axis),
        half_sorted(objects, middle, objects.len() as int, right, corners, axis),
        merged_so_far(objects, left, right, i, j, out, corners, axis),
        take_left ==> i < left.len() && (j < right.len() ==> key_of(corners, left[i], axis)
            <= key_of(corners, right[j], axis)),
        !take_left ==> j < right.len() && (i < left.len() ==> key_of(corners, left[i], axis)
            > key_of(corners, right[j], axis)),
    ensures
        take_left ==> merged_so_far(
            objects,
            left,
            right,
            i + 1,
            j,
            out.push(left[i]),
            corners,
            axis,
        ),
        !take_left ==> merged_so_far(
            objects,
            left,
            right,
            i,
            j + 1,
            out.push(right[j]),
            corners,
            axis,
        ),
{
    let object = if take_left {
        left[i]
    } else {
        right[j]
    };
    let next = out.push(object);
    let (ni, nj) = if take_left {
        (i + 1, j)
    } else {
        (i, j + 1)
    };
    let last = out.len() as int;
    assert forall|k: int| 0 <= k < next.len() implies left.take(ni).contains(#[trigger] next[k])
        || right.take(nj).contains(next[k]) by {
        if k < last {
            assert(next[k] == out[k]);
            if left.take(i).contains(out[k]) {
                let p = choose|p: int| 0 <= p < i && left.take(i)[p] == out[k];
                assert(left.take(ni)[p] == out[k]);
            } else {
                let q = choose|q: int| 0 <= q < j && right.take(j)[q] == out[k];
                assert(right.take(nj)[q] == out[k]);
            }
        } else if take_left {
            assert(left.take(ni)[i] == object);
        } else {
            assert(right.take(nj)[j] == object);
        }
    }
    assert forall|p: int| 0 <= p < ni implies next.contains(#[trigger] left[p]) by {
        if p < i {
            assert(out.contains(left[p]));
            let k = choose|k: int| 0 <= k < out.len() && out[k] == left[p];
            assert(next[k] == left[p]);
        } else {
            assert(next[last] == left[p]);
        }
    }
    assert forall|q: int| 0 <= q < nj implies next.contains(#[trigger] right[q]) by {
        if q < j {
            assert(out.contains(right[q]));
            let k = choose|k: int| 0 <= k < out.len() && out[k] == right[q];
            assert(next[k] == right[q]);
        } else {
            assert(next[last] == right[q]);
        }
    }
    assert forall|a: int, b: int| 0 <= a < b < next.len() implies stands_before(
        objects,
        corners,
        axis,
        #[trigger] next[a],
        #[trigger] next[b],
    ) by {
        assert(next[a] == out[a]);
        if b < last {
            assert(next[b] == out[b]);
        } else if take_left {
            assert(stands_before(objects, corners, axis, out[a], left[i]));
        } else {
            assert(stands_before(objects, corners, axis, out[a], right[j]));
        }
    }
    assert forall|k: int, p: int| 0 <= k < next.len() && ni <= p < left.len() implies stands_before(
        objects,
        corners,
        axis,
        #[trigger] next[k],
        #[trigger] left[p],
    ) by {
        if k < last {
            assert(next[k] == out[k]);
            assert(stands_before(objects, corners, axis, out[k], left[p]));
        } else if take_left {
            assert(stands_before(objects, corners, axis, left[i], left[p]));
        } else {
            // The right object has the smaller corner.
            assert(i < left.len());
            if p > i {
                assert(stands_before(objects, corners, axis, left[i], left[p]));
            }
        }
    }
    assert forall|k: int, q: int|
        0 <= k < next.len() && nj <= q < right.len() implies stands_before(
        objects,
        corners,
        axis,
        #[trigger] next[k],
        #[trigger] right[q],
    ) by {
        if k < last {
            assert(next[k] == out[k]);
            assert(stands_before(objects, corners, axis, out[k], right[q]));
        } else if take_left {
            // The left object stands at an earlier place, and its corner is
            // not the larger one.
            assert(place_of(objects, left[i]) < middle);
            assert(place_of(objects, right[q]) >= middle);
            assert(j < right.len());
            if q > j {
                assert(stands_before(objects, corners, axis, right[j], right[q]));
            }
        } else {
            assert(stands_before(objects, corners, axis, right[j], right[q]));
        }
    }
}

/// When both halves are used up, what was merged is the sorted list.
proof fn lemma_merged(
    objects: Seq<usize>,
    middle: int,
    left: Seq<usize>,
    right: Seq<usize>,
    out: Seq<usize>,
    corners: Seq<MinCorner>,
    axis: usize,
)
    requires
        objects.no_duplicates(),
        0 <= middle <= objects.len(),
        half_sorted(objects, 0, middle, left, corners, axis),
        half_sorted(objects, middle, objects.len() as int, right, corners, axis),
        merged_so_far(
            objects,
            left,
            right,
            left.len() as int,
            right.len() as int,
            out,
            corners,
            axis,
        ),
    ensures
        stably_sorted(objects, out, corners, axis),
{
    assert forall|k: int| 0 <= k < out.len() implies objects.contains(#[trigger] out[k]) by {
        if left.take(left.len() as int).contains(out[k]) {
            let p = choose|p: int| 0 <= p < left.len() && left.take(left.len() as int)[p] == out[k];
            assert(left[p] == out[k]);
            assert(objects[place_of(objects, left[p])] == left[p]);
        } else {
            let q = choose|q: int|
                0 <= q < right.len() && right.take(right.len() as int)[q] == out[k];
            assert(right[q] == out[k]);
            assert(objects[place_of(objects, right[q])] == right[q]);
        }
    }
    assert forall|place: int| 0 <= place < objects.len() implies out.contains(
        #[trigger] objects[place],
    ) by {
        if place < middle {
            assert(left.contains(objects[place]));
            let p = choose|p: int| 0 <= p < left.len() && left[p] == objects[place];
            assert(out.contains(left[p]));
        } else {
            assert(right.contains(objects[place]));
            let q = choose|q: int| 0 <= q < right.len() && right[q] == objects[place];
            assert(out.contains(right[q]));
        }
    }
    assert(out.no_duplicates()) by {
        assert forall|a: int, b: int| 0 <= a < out.len() && 0 <= b < out.len() && a
            != b implies out[a] != out[b] by {
            if a < b {
                assert(stands_before(objects, corners, axis, out[a], out[b]));
            } else {
                assert(stands_before(objects, corners, axis, out[b], out[a]));
            }
        }
    }
    lemma_stable_order(objects, out, corners, axis);
}

/// A list has one stable sort only: two lists that are both the list sorted
/// along the axis by a stable sort are the same.
pub proof fn lemma_stable_sort_is_unique(
    objects: Seq<usize>,
    one: Seq<usize>,
    other: Seq<usize>,
    corners: Seq<MinCorner>,
    axis: usize,
)
    requires
        stably_sorted(objects, one, corners, axis),
        stably_sorted(objects, other, corners, axis),
    ensures
        one == other,
{
    lemma_stable_order(objects, one, corners, axis);
    lemma_stable_order(objects, other, corners, axis);
    assert forall|k: int| 0 <= k < one.len() implies one[k] == other[k] by {
        lemma_same_place(objects, one, other, corners, axis, k);
    }
    assert(one =~= other);
}

/// Two lists that hold the same objects in the stable order of one list hold
/// the same object at each place.
proof fn lemma_same_place(
    objects: Seq<usize>,
    one: Seq<usize>,
    other: Seq<usize>,
    corners: Seq<MinCorner>,
    axis: usize,
    place: int,
)
    requires
        same_objects(objects, one),
        same_objects(objects, other),
        in_stable_order(objects, one, corners, axis),
        in_stable_order(objects, other, corners, axis),
        0 <= place < one.len(),
    ensures
        one[place] == other[place],
    decreases place,
{
    // The objects before the place are the same in both lists.
    assert forall|k: int| 0 <= k < place implies one[k] == other[k] by {
        lemma_same_place(objects, one, other, corners, axis, k);
    }
    let a = one[place];
    let b = other[place];
    if a != b {
        // Each of the two stands behind the place in the other list, so each
        // stands before the other.
        assert(objects.contains(a) && objects.contains(b));
        assert(other.contains(objects[place_of(objects, a)]));
        assert(one.contains(objects[place_of(objects, b)]));
        let m = choose|m: int| 0 <= m < other.len() && other[m] == a;
        let n = choose|n: int| 0 <= n < one.len() && one[n] == b;
        if m < place {
            assert(one[m] == other[m]);
            assert(one[m] == one[place]);
        }
        if n < place {
            assert(other[n] == one[n]);
            assert(other[n] == other[place]);
        }
        assert(stands_before(objects, corners, axis, other[place], other[m]));
        assert(stands_before(objects, corners, axis, one[place], one[n]));
    }
}

} // verus!
