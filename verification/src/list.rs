//! The list of a scene's objects, and the search of a list by testing every
//! object in turn.

use vstd::prelude::*;

verus! {

/// The objects of a scene, in the order in which they were added.
#[derive(Debug)]
pub struct HittableList<T> {
    objects: Vec<T>,
}

impl<T> View for HittableList<T> {
    type V = Seq<T>;

    /// The objects, in the order in which they were added.
    closed spec fn view(&self) -> Seq<T> {
        self.objects@
    }
}

/// The nearer of what was found so far and what one more object gave, going
/// by `closer`, which says whether its first distance is the smaller one: the
/// new hit is taken where nothing was found so far or where it is closer.
pub open spec fn nearer_of<D, R, NF: Fn(&D, &D) -> bool>(
    closer: NF,
    so_far: Option<(D, R)>,
    hit: Option<(D, R)>,
    found: Option<(D, R)>,
) -> bool {
    match (so_far, hit) {
        (_, None) => found == so_far,
        (None, Some(_)) => found == hit,
        (Some(best), Some(new)) => {
            ||| call_ensures(closer, (&new.0, &best.0), true) && found == hit
            ||| call_ensures(closer, (&new.0, &best.0), false) && found == so_far
        },
    }
}

/// One step of a search of a list: what was found in the objects before,
/// what the next object gave, and what is found with it.
pub open spec fn scan_step<'a, T: 'a, D, R, OH: Fn(&'a T, D, D) -> Option<(D, R)>, NF: Fn(&D, &D) -> bool>(
    object: T,
    low: D,
    high: D,
    object_hit: OH,
    closer: NF,
    so_far: Option<(D, R)>,
    hit: Option<(D, R)>,
    found: Option<(D, R)>,
) -> bool {
    &&& call_ensures(object_hit, (&object, low, high), hit)
    &&& nearer_of(closer, so_far, hit, found)
}

/// Whether `found` is what a search of the objects in the interval from `low`
/// to `high` may come to, given what the tests of objects and the comparisons
/// of distances may answer: nothing for no objects, else the nearer of what
/// the objects before the last give and what the last object gives.
pub open spec fn scanned<'a, T: 'a, D, R, OH: Fn(&'a T, D, D) -> Option<(D, R)>, NF: Fn(&D, &D) -> bool>(
    objects: Seq<T>,
    low: D,
    high: D,
    object_hit: OH,
    closer: NF,
    found: Option<(D, R)>,
) -> bool
    decreases objects.len(),
{
    if objects.len() == 0 {
        found is None
    } else {
        exists|so_far: Option<(D, R)>, hit: Option<(D, R)>|
            #[trigger] scan_step(objects.last(), low, high, object_hit, closer, so_far, hit, found)
                && scanned(objects.drop_last(), low, high, object_hit, closer, so_far)
    }
}

/// One step of joining the boxes of a list: the box around the objects
/// before, if there are any, the box of the next object, and the box around
/// all of them.
pub open spec fn bound_step<T, B, BF: Fn(&T) -> Option<B>, JF: Fn(&B, &B) -> B>(
    object: T,
    bound: BF,
    join: JF,
    so_far: Option<B>,
    last: B,
    around: B,
) -> bool {
    &&& call_ensures(bound, (&object,), Some(last))
    &&& match so_far {
        Some(before) => call_ensures(join, (&before, &last), around),
        None => around == last,
    }
}

/// Whether `around` is what joining the boxes of the objects may come to,
/// given what `bound` may give for an object and `join` for two boxes: no
/// box for no objects, and no box where an object has none; else the box of
/// the first object, joined with the boxes of the others one after the
/// other.
pub open spec fn bounded<T, B, BF: Fn(&T) -> Option<B>, JF: Fn(&B, &B) -> B>(
    objects: Seq<T>,
    bound: BF,
    join: JF,
    around: Option<B>,
) -> bool
    decreases objects.len(),
{
    match around {
        Some(bbox) => objects.len() > 0 && exists|so_far: Option<B>, last: B|
            #[trigger] bound_step(objects.last(), bound, join, so_far, last, bbox) && (
            objects.len() > 1 ==> so_far is Some) && bounded(
                objects.drop_last(),
                bound,
                join,
                so_far,
            ),
        None => objects.len() == 0 || exists|i: int|
            0 <= i < objects.len() && call_ensures(bound, (&#[trigger] objects[i],), None),
    }
}

impl<T> Default for HittableList<T> {
    /// A list without objects.
    fn default() -> (list: Self)
        ensures
            list@ == Seq::<T>::empty(),
    {
        Self { objects: Vec::new() }
    }
}

impl<T> HittableList<T> {
    /// A list without objects.
    pub fn new() -> (list: Self)
        ensures
            list@ == Seq::<T>::empty(),
    {
        Self { objects: Vec::new() }
    }

    /// Puts an object at the end of the list.
    pub fn add(&mut self, object: T)
        ensures
            final(self)@ == old(self)@.push(object),
    {
        self.objects.push(object);
    }

    /// Takes every object out of the list.
    pub fn clear(&mut self)
        ensures
            final(self)@ == Seq::<T>::empty(),
    {
        self.objects.clear();
    }

    /// The number of objects.
    pub fn len(&self) -> (count: usize)
        ensures
            count == self@.len(),
    {
        self.objects.len()
    }

    /// The object at a place of the list.
    pub fn get(&self, place: usize) -> (object: &T)
        requires
            place < self@.len(),
        ensures
            *object == self@[place as int],
    {
        &self.objects[place]
    }

    /// The objects, in the order in which they were added.
    pub fn into_objects(self) -> (objects: Vec<T>)
        ensures
            objects@ == self@,
    {
        self.objects
    }

    /// Searches the list for the nearest hit in the interval from `low` to
    /// `high`, by testing every object. `object_hit` tests the ray against an
    /// object, and gives the distance of the hit and its record; `closer` says
    /// whether the first of two distances is the smaller one. Of hits at the
    /// same distance the one of the earlier object is found.
    pub fn hit<'a, D: Copy, R, OH: Fn(&'a T, D, D) -> Option<(D, R)>, NF: Fn(&D, &D) -> bool>(
        &'a self,
        low: D,
        high: D,
        object_hit: &OH,
        closer: &NF,
    ) -> (found: Option<(D, R)>)
        requires
            forall|o: &T, l: D, h: D| call_requires(*object_hit, (o, l, h)),
            forall|a: &D, b: &D| call_requires(*closer, (a, b)),
        ensures
            scanned(self@, low, high, *object_hit, *closer, found),
    {
        let mut found: Option<(D, R)> = None;
        let mut place: usize = 0;
        proof {
            assert(self@.take(0) =~= Seq::<T>::empty());
        }
        while place < self.objects.len()
            invariant
                place <= self.objects.len(),
                forall|o: &T, l: D, h: D| call_requires(*object_hit, (o, l, h)),
                forall|a: &D, b: &D| call_requires(*closer, (a, b)),
                scanned(self@.take(place as int), low, high, *object_hit, *closer, found),
            decreases self.objects.len() - place,
        {
            let ghost so_far = found;
            let hit = object_hit(&self.objects[place], low, high);
            let ghost given = hit;
            found =
            match hit {
                None => found,
                Some(new) => match found {
                    None => Some(new),
                    Some(best) => if closer(&new.0, &best.0) {
                        Some(new)
                    } else {
                        Some(best)
                    },
                },
            };
            proof {
                let next = self@.take(place + 1);
                assert(next.drop_last() =~= self@.take(place as int));
                assert(next.last() == self@[place as int]);
                assert(nearer_of(*closer, so_far, given, found));
                assert(scan_step(
                    next.last(),
                    low,
                    high,
                    *object_hit,
                    *closer,
                    so_far,
                    given,
                    found,
                ));
                assert(exists|s: Option<(D, R)>, h: Option<(D, R)>|
                    #[trigger] scan_step(next.last(), low, high, *object_hit, *closer, s, h, found)
                        && scanned(next.drop_last(), low, high, *object_hit, *closer, s));
                assert(scanned(next, low, high, *object_hit, *closer, found));
            }
            place += 1;
        }
        proof {
            assert(self@.take(self@.len() as int) =~= self@);
        }
        found
    }

    /// The box around all objects of the list. `bound` gives the box of an
    /// object, or nothing for an object without one; `join` gives the box
    /// around two boxes. There is no box around no objects, and none around
    /// objects of which one has no box.
    pub fn bbox<B, BF: Fn(&T) -> Option<B>, JF: Fn(&B, &B) -> B>(&self, bound: &BF, join: &JF) -> (around:
        Option<B>)
        requires
            forall|o: &T| call_requires(*bound, (o,)),
            forall|a: &B, b: &B| call_requires(*join, (a, b)),
        ensures
            bounded(self@, *bound, *join, around),
    {
        let mut around: Option<B> = None;
        let mut place: usize = 0;
        proof {
            assert(self@.take(0) =~= Seq::<T>::empty());
        }
        while place < self.objects.len()
            invariant
                place <= self.objects.len(),
                forall|o: &T| call_requires(*bound, (o,)),
                forall|a: &B, b: &B| call_requires(*join, (a, b)),
                bounded(self@.take(place as int), *bound, *join, around),
                place > 0 ==> around is Some,
            decreases self.objects.len() - place,
        {
            let ghost so_far = around;
            let ghost next = self@.take(place + 1);
            proof {
                assert(next.drop_last() =~= self@.take(place as int));
                assert(next.last() == self@[place as int]);
            }
            let last = match bound(&self.objects[place]) {
                Some(bbox) => bbox,
                None => {
                    return None;
                },
            };
            let ghost given = last;
            around =
            match around {
                Some(before) => Some(join(&before, &last)),
                None => Some(last),
            };
            proof {
                let joined = around->Some_0;
                assert(bound_step(next.last(), *bound, *join, so_far, given, joined));
                assert(exists|s: Option<B>, l: B|
                    #[trigger] bound_step(next.last(), *bound, *join, s, l, joined) && (next.len()
                        > 1 ==> s is Some) && bounded(next.drop_last(), *bound, *join, s));
                assert(around == Some(joined));
                assert(bounded(next, *bound, *join, around));
            }
            place += 1;
        }
        proof {
            assert(self@.take(self@.len() as int) =~= self@);
        }
        around
    }
}

} // verus!
