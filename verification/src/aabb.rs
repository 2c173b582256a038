//! Axis-aligned bounding boxes, and the test of a ray against one: along each
//! axis the ray is inside the box between two distances, and it meets the box
//! if the interval that is searched, narrowed to these distances axis by
//! axis, does not become empty.
//!
//! What a corner and a distance are is the caller's business, and so is the
//! arithmetic that finds where a ray crosses the sides of a box.

use vstd::prelude::*;

verus! {

/// A box between a minimum and a maximum corner.
#[derive(Debug, Clone)]
pub struct AABB<P> {
    pub min: P,
    pub max: P,
}

impl<P> AABB<P> {
    /// The box between two corners.
    pub fn new(min: P, max: P) -> (bbox: Self)
        ensures
            bbox == (AABB { min, max }),
    {
        Self { min, max }
    }

    /// The minimum corner.
    pub fn min(&self) -> (corner: &P)
        ensures
            *corner == self.min,
    {
        &self.min
    }

    /// The maximum corner.
    pub fn max(&self) -> (corner: &P)
        ensures
            *corner == self.max,
    {
        &self.max
    }

    /// The box around this box and another: from the lowest of the two minimum
    /// corners to the highest of the two maximum corners. `lowest` and
    /// `highest` give the corner that is lowest, or highest, along every
    /// axis.
    pub fn union<LF: Fn(&P, &P) -> P, HF: Fn(&P, &P) -> P>(
        &self,
        other: &Self,
        lowest: &LF,
        highest: &HF,
    ) -> (around: Self)
        requires
            call_requires(*lowest, (&self.min, &other.min)),
            call_requires(*highest, (&self.max, &other.max)),
        ensures
            call_ensures(*lowest, (&self.min, &other.min), around.min),
            call_ensures(*highest, (&self.max, &other.max), around.max),
    {
        let min = lowest(&self.min, &other.min);
        let max = highest(&self.max, &other.max);
        Self { min, max }
    }

    /// One step of the test: along the axis the ray enters the box at
    /// `enter` and leaves it at `leave`, the interval from `t_min` to
    /// `t_max` narrowed to these is the interval from `from` to `to`, and
    /// `empty` says whether nothing is left of it.
    pub open spec fn narrow_step<
        D,
        CF: Fn(&P, &P, usize) -> (D, D),
        XF: Fn(D, D) -> D,
        NF: Fn(D, D) -> D,
        EF: Fn(&D, &D) -> bool,
    >(
        self,
        axis: usize,
        t_min: D,
        t_max: D,
        crossing: CF,
        larger: XF,
        smaller: NF,
        not_after: EF,
        enter: D,
        leave: D,
        from: D,
        to: D,
        empty: bool,
    ) -> bool {
        &&& call_ensures(crossing, (&self.min, &self.max, axis), (enter, leave))
        &&& call_ensures(larger, (t_min, enter), from)
        &&& call_ensures(smaller, (t_max, leave), to)
        &&& call_ensures(not_after, (&to, &from), empty)
    }

    /// Whether `met` is what the test of the axes from `axis` on may come to
    /// for the interval from `t_min` to `t_max`, given what the closures may
    /// answer: the ray misses the box as soon as the interval is empty after
    /// an axis, and meets it if the interval outlasts the three axes.
    pub open spec fn narrows<
        D,
        CF: Fn(&P, &P, usize) -> (D, D),
        XF: Fn(D, D) -> D,
        NF: Fn(D, D) -> D,
        EF: Fn(&D, &D) -> bool,
    >(
        self,
        axis: usize,
        t_min: D,
        t_max: D,
        crossing: CF,
        larger: XF,
        smaller: NF,
        not_after: EF,
        met: bool,
    ) -> bool
        decreases 3 - axis,
    {
        if axis >= 3 {
            met
        } else {
            exists|enter: D, leave: D, from: D, to: D, empty: bool|
                #[trigger] self.narrow_step(
                    axis,
                    t_min,
                    t_max,
                    crossing,
                    larger,
                    smaller,
                    not_after,
                    enter,
                    leave,
                    from,
                    to,
                    empty,
                ) && if empty {
                    !met
                } else {
                    self.narrows(
                        (axis + 1) as usize,
                        from,
                        to,
                        crossing,
                        larger,
                        smaller,
                        not_after,
                        met,
                    )
                }
        }
    }

    /// Whether a ray meets the box in the interval from `low` to `high`.
    /// `crossing` gives, for the two corners and an axis, the distances at
    /// which the ray enters and leaves the box along that axis; `larger` and
    /// `smaller` give the larger and the smaller of two distances;
    /// `not_after` says whether its first distance is not after its second.
    pub fn hit<
        D: Copy,
        CF: Fn(&P, &P, usize) -> (D, D),
        XF: Fn(D, D) -> D,
        NF: Fn(D, D) -> D,
        EF: Fn(&D, &D) -> bool,
    >(
        &self,
        low: D,
        high: D,
        crossing: &CF,
        larger: &XF,
        smaller: &NF,
        not_after: &EF,
    ) -> (met: bool)
        requires
            forall|axis: usize| axis < 3 ==> call_requires(*crossing, (&self.min, &self.max, axis)),
            forall|a: D, b: D| call_requires(*larger, (a, b)),
            forall|a: D, b: D| call_requires(*smaller, (a, b)),
            forall|a: &D, b: &D| call_requires(*not_after, (a, b)),
        ensures
            self.narrows(0, low, high, *crossing, *larger, *smaller, *not_after, met),
    {
        self.hit_from(0, low, high, crossing, larger, smaller, not_after)
    }

    /// The test of the axes from `axis` on.
    fn hit_from<
        D: Copy,
        CF: Fn(&P, &P, usize) -> (D, D),
        XF: Fn(D, D) -> D,
        NF: Fn(D, D) -> D,
        EF: Fn(&D, &D) -> bool,
    >(
        &self,
        axis: usize,
        t_min: D,
        t_max: D,
        crossing: &CF,
        larger: &XF,
        smaller: &NF,
        not_after: &EF,
    ) -> (met: bool)
        requires
            axis <= 3,
            forall|axis: usize| axis < 3 ==> call_requires(*crossing, (&self.min, &self.max, axis)),
            forall|a: D, b: D| call_requires(*larger, (a, b)),
            forall|a: D, b: D| call_requires(*smaller, (a, b)),
            forall|a: &D, b: &D| call_requires(*not_after, (a, b)),
        ensures
            self.narrows(axis, t_min, t_max, *crossing, *larger, *smaller, *not_after, met),
        decreases 3 - axis,
    {
        if axis == 3 {
            return true;
        }
        let (enter, leave) = crossing(&self.min, &self.max, axis);
        let from = larger(t_min, enter);
        let to = smaller(t_max, leave);
        let empty = not_after(&to, &from);
        let met = if empty {
            false
        } else {
            self.hit_from(axis + 1, from, to, crossing, larger, smaller, not_after)
        };
        proof {
            assert(self.narrow_step(
                axis,
                t_min,
                t_max,
                *crossing,
                *larger,
                *smaller,
                *not_after,
                enter,
                leave,
                from,
                to,
                empty,
            ));
        }
        met
    }
}

/// Whether a ray meets a box, tested from `axis` on for the interval from
/// `t_min` to `t_max`, where the crossings and the comparisons are
/// functions.
pub open spec fn meets<P, D>(
    bbox: AABB<P>,
    axis: nat,
    t_min: D,
    t_max: D,
    crossing: spec_fn(P, P, usize) -> (D, D),
    larger: spec_fn(D, D) -> D,
    smaller: spec_fn(D, D) -> D,
    not_after: spec_fn(D, D) -> bool,
) -> bool
    decreases 3 - axis,
{
    if axis >= 3 {
        true
    } else {
        let sides = crossing(bbox.min, bbox.max, axis as usize);
        let from = larger(t_min, sides.0);
        let to = smaller(t_max, sides.1);
        !not_after(to, from) && meets(
            bbox,
            axis + 1,
            from,
            to,
            crossing,
            larger,
            smaller,
            not_after,
        )
    }
}

/// Whether the closures answer as the functions do.
pub open spec fn tests_are<
    P,
    D,
    CF: Fn(&P, &P, usize) -> (D, D),
    XF: Fn(D, D) -> D,
    NF: Fn(D, D) -> D,
    EF: Fn(&D, &D) -> bool,
>(
    crossing_test: CF,
    larger_test: XF,
    smaller_test: NF,
    not_after_test: EF,
    crossing: spec_fn(P, P, usize) -> (D, D),
    larger: spec_fn(D, D) -> D,
    smaller: spec_fn(D, D) -> D,
    not_after: spec_fn(D, D) -> bool,
) -> bool {
    &&& forall|min: P, max: P, axis: usize, sides: (D, D)| #[trigger]
        call_ensures(crossing_test, (&min, &max, axis), sides) ==> sides == crossing(
            min,
            max,
            axis,
        )
    &&& forall|a: D, b: D, c: D| #[trigger] call_ensures(larger_test, (a, b), c) ==> c == larger(a, b)
    &&& forall|a: D, b: D, c: D| #[trigger]
        call_ensures(smaller_test, (a, b), c) ==> c == smaller(a, b)
    &&& forall|a: D, b: D, c: bool| #[trigger]
        call_ensures(not_after_test, (&a, &b), c) ==> c == not_after(a, b)
}

/// Where the crossings and the comparisons are functions, the test of a box
/// comes to one thing only: what `meets` says.
pub proof fn lemma_box_test<
    P,
    D,
    CF: Fn(&P, &P, usize) -> (D, D),
    XF: Fn(D, D) -> D,
    NF: Fn(D, D) -> D,
    EF: Fn(&D, &D) -> bool,
>(
    bbox: AABB<P>,
    axis: usize,
    t_min: D,
    t_max: D,
    crossing_test: CF,
    larger_test: XF,
    smaller_test: NF,
    not_after_test: EF,
    met: bool,
    crossing: spec_fn(P, P, usize) -> (D, D),
    larger: spec_fn(D, D) -> D,
    smaller: spec_fn(D, D) -> D,
    not_after: spec_fn(D, D) -> bool,
)
    requires
        axis <= 3,
        bbox.narrows(axis, t_min, t_max, crossing_test, larger_test, smaller_test, not_after_test, met),
        tests_are(
            crossing_test,
            larger_test,
            smaller_test,
            not_after_test,
            crossing,
            larger,
            smaller,
            not_after,
        ),
    ensures
        met == meets(bbox, axis as nat, t_min, t_max, crossing, larger, smaller, not_after),
    decreases 3 - axis,
{
    if axis < 3 {
        let (enter, leave, from, to, empty) = choose|
            enter: D,
            leave: D,
            from: D,
            to: D,
            empty: bool,
        |
            #[trigger] bbox.narrow_step(
                axis,
                t_min,
                t_max,
                crossing_test,
                larger_test,
                smaller_test,
                not_after_test,
                enter,
                leave,
                from,
                to,
                empty,
            ) && if empty {
                !met
            } else {
                bbox.narrows(
                    (axis + 1) as usize,
                    from,
                    to,
                    crossing_test,
                    larger_test,
                    smaller_test,
                    not_after_test,
                    met,
                )
            };
        assert((enter, leave) == crossing(bbox.min, bbox.max, axis));
        if !empty {
            lemma_box_test(
                bbox,
                (axis + 1) as usize,
                from,
                to,
                crossing_test,
                larger_test,
                smaller_test,
                not_after_test,
                met,
                crossing,
                larger,
                smaller,
                not_after,
            );
        }
    }
}

/// Whether distances are compared by their ranks: the larger of two has the
/// larger rank, the smaller the smaller, and one is not after another if its
/// rank is not larger.
pub open spec fn compares_by_rank<D>(
    larger: spec_fn(D, D) -> D,
    smaller: spec_fn(D, D) -> D,
    not_after: spec_fn(D, D) -> bool,
    rank: spec_fn(D) -> int,
) -> bool {
    &&& forall|a: D, b: D|
        rank(#[trigger] larger(a, b)) == if rank(a) >= rank(b) {
            rank(a)
        } else {
            rank(b)
        }
    &&& forall|a: D, b: D|
        rank(#[trigger] smaller(a, b)) == if rank(a) <= rank(b) {
            rank(a)
        } else {
            rank(b)
        }
    &&& forall|a: D, b: D| #[trigger] not_after(a, b) == (rank(a) <= rank(b))
}

/// Whether along every axis the ray is inside the wider box wherever it is
/// inside the narrower one: it enters the wider box no later, and leaves it
/// no sooner.
pub open spec fn contains<P, D>(
    wider: AABB<P>,
    narrower: AABB<P>,
    crossing: spec_fn(P, P, usize) -> (D, D),
    rank: spec_fn(D) -> int,
) -> bool {
    forall|axis: usize|
        axis < 3 ==> rank((#[trigger] crossing(wider.min, wider.max, axis)).0) <= rank(
            crossing(narrower.min, narrower.max, axis).0,
        ) && rank(crossing(wider.min, wider.max, axis).1) >= rank(
            crossing(narrower.min, narrower.max, axis).1,
        )
}

/// A wider interval and a wider box keep what a narrower interval and a
/// narrower box let through.
pub proof fn lemma_wider_is_met<P, D>(
    wider: AABB<P>,
    narrower: AABB<P>,
    axis: nat,
    wide_min: D,
    wide_max: D,
    t_min: D,
    t_max: D,
    crossing: spec_fn(P, P, usize) -> (D, D),
    larger: spec_fn(D, D) -> D,
    smaller: spec_fn(D, D) -> D,
    not_after: spec_fn(D, D) -> bool,
    rank: spec_fn(D) -> int,
)
    requires
        compares_by_rank(larger, smaller, not_after, rank),
        contains(wider, narrower, crossing, rank),
        rank(wide_min) <= rank(t_min),
        rank(wide_max) >= rank(t_max),
        meets(narrower, axis, t_min, t_max, crossing, larger, smaller, not_after),
    ensures
        meets(wider, axis, wide_min, wide_max, crossing, larger, smaller, not_after),
    decreases 3 - axis,
{
    if axis < 3 {
        let wide = crossing(wider.min, wider.max, axis as usize);
        let narrow = crossing(narrower.min, narrower.max, axis as usize);
        lemma_wider_is_met(
            wider,
            narrower,
            axis + 1,
            larger(wide_min, wide.0),
            smaller(wide_max, wide.1),
            larger(t_min, narrow.0),
            smaller(t_max, narrow.1),
            crossing,
            larger,
            smaller,
            not_after,
            rank,
        );
    }
}

/// Bounding is monotonic. Let a box be around two boxes, so that along
/// every axis the ray is inside it wherever it is inside one of the two.
/// Then the ray meets it in every interval in which it meets one of the
/// two.
pub proof fn lemma_union_is_met<P, D>(
    around: AABB<P>,
    one: AABB<P>,
    other: AABB<P>,
    low: D,
    high: D,
    crossing: spec_fn(P, P, usize) -> (D, D),
    larger: spec_fn(D, D) -> D,
    smaller: spec_fn(D, D) -> D,
    not_after: spec_fn(D, D) -> bool,
    rank: spec_fn(D) -> int,
)
    requires
        compares_by_rank(larger, smaller, not_after, rank),
        contains(around, one, crossing, rank),
        contains(around, other, crossing, rank),
        meets(one, 0, low, high, crossing, larger, smaller, not_after) || meets(
            other,
            0,
            low,
            high,
            crossing,
            larger,
            smaller,
            not_after,
        ),
    ensures
        meets(around, 0, low, high, crossing, larger, smaller, not_after),
{
    if meets(one, 0, low, high, crossing, larger, smaller, not_after) {
        lemma_wider_is_met(
            around,
            one,
            0,
            low,
            high,
            low,
            high,
            crossing,
            larger,
            smaller,
            not_after,
            rank,
        );
    } else {
        lemma_wider_is_met(
            around,
            other,
            0,
            low,
            high,
            low,
            high,
            crossing,
            larger,
            smaller,
            not_after,
            rank,
        );
    }
}

} // verus!
