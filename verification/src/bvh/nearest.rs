//! The nearest hit of a ray, found through the hierarchy, and why it is the
//! hit that a scan of all primitives finds.
//!
//! The caller says which boxes the ray passes through and at which distance
//! it meets each primitive, if it meets it. Only the primitives that the
//! walk reports are asked for their distance. Of two primitives that are met
//! at one distance the one of the lesser number counts as nearer, so that
//! the choice does not depend on how the hierarchy was built.

use crate::aabb::Aabb;
use crate::bvh::index::{answers_all, decides, definite, accepts, Bvh};
use crate::bvh::tree::{grows_with_box, BoxTest};
use crate::hit::is_nearest;
use vstd::prelude::*;

verus! {

/// A primitive that a ray meets, and the distance at which it meets it.
#[derive(Clone, Copy, Debug, PartialEq, Eq, Structural)]
pub struct Hit {
    pub primitive: usize,
    pub distance: i32,
}

/// At which distance a ray meets each primitive, `None` for a miss.
pub type Distances = spec_fn(usize) -> Option<i32>;

/// The distances of the primitives `0..n`, as a scan of them all finds them.
pub open spec fn scanned(n: nat, dist: Distances) -> Seq<Option<i32>> {
    Seq::new(n, |p: int| dist(p as usize))
}

/// Whether the ray misses all the primitives of `among`.
pub open spec fn misses_all(among: Seq<usize>, dist: Distances) -> bool {
    forall|k: int| 0 <= k < among.len() ==> (#[trigger] dist(among[k])) is None
}

/// Whether `hit` is the nearest hit among the primitives of `among`: one of
/// them, met at the distance that `hit` says, and none of them met at a
/// lesser distance, nor one of a lesser number at the same.
pub open spec fn nearest_among(among: Seq<usize>, dist: Distances, hit: Hit) -> bool {
    &&& among.contains(hit.primitive)
    &&& dist(hit.primitive) == Some(hit.distance)
    &&& forall|k: int|
        0 <= k < among.len() && (#[trigger] dist(among[k])) is Some ==> hit.distance < dist(
            among[k],
        )->0 || (hit.distance == dist(among[k])->0 && hit.primitive <= among[k])
}

/// Whether the ray passes through the box of every primitive that it meets.
pub open spec fn boxes_are_met(boxes: Seq<Aabb>, hit: BoxTest, dist: Distances) -> bool {
    forall|p: int| 0 <= p < boxes.len() && dist(p as usize) is Some ==> hit(#[trigger] boxes[p])
}

/// Whether `distance` answers as `dist` says.
pub open spec fn measures<G: Fn(usize) -> Option<i32>>(distance: G, dist: Distances) -> bool {
    &&& forall|p: usize| #[trigger] distance.requires((p,))
    &&& forall|p: usize, d: Option<i32>| #[trigger] distance.ensures((p,), d) ==> d == dist(p)
}

/// Whether `distance` can be asked about every primitive and has one answer
/// for each.
pub open spec fn measures_surely<G: Fn(usize) -> Option<i32>>(distance: G) -> bool {
    &&& forall|p: usize| #[trigger] distance.requires((p,))
    &&& forall|p: usize, a: Option<i32>, b: Option<i32>|
        #![trigger distance.ensures((p,), a), distance.ensures((p,), b)]
        distance.ensures((p,), a) && distance.ensures((p,), b) ==> a == b
}

/// The distances that an executable measure stands for.
pub open spec fn measured<G: Fn(usize) -> Option<i32>>(distance: G) -> Distances {
    |p: usize| choose|d: Option<i32>| distance.ensures((p,), d)
}

/// A scan of all primitives finds the hit that is the nearest among the
/// primitives of `among`, if `among` has every primitive that the ray
/// meets; and where the ray misses all of `among`, it misses all.
pub proof fn lemma_scan_agrees(n: nat, among: Seq<usize>, dist: Distances)
    requires
        forall|k: int| 0 <= k < among.len() ==> (#[trigger] among[k]) < n,
        forall|p: usize| p < n && (#[trigger] dist(p)) is Some ==> among.contains(p),
    ensures
        forall|hit: Hit| #[trigger]
            nearest_among(among, dist, hit) ==> is_nearest(scanned(n, dist), hit.primitive as int)
                && scanned(n, dist)[hit.primitive as int] == Some(hit.distance),
        misses_all(among, dist) ==> forall|p: int|
            0 <= p < n ==> (#[trigger] scanned(n, dist)[p]) is None,
{
    let all = scanned(n, dist);
    assert forall|hit: Hit| #[trigger] nearest_among(among, dist, hit) implies is_nearest(
        all,
        hit.primitive as int,
    ) && all[hit.primitive as int] == Some(hit.distance) by {
        let at = choose|k: int| 0 <= k < among.len() && among[k] == hit.primitive;
        assert(among[at] < n);
        assert forall|p: int| 0 <= p < all.len() && (#[trigger] all[p]) is Some implies all[hit.primitive as int]->0
            <= all[p]->0 && (p < hit.primitive ==> all[hit.primitive as int]->0 < all[p]->0) by {
            assert(dist(p as usize) is Some);
            let k = choose|k: int| 0 <= k < among.len() && among[k] == p as usize;
            assert(dist(among[k]) is Some);
        }
    }
    if misses_all(among, dist) {
        assert forall|p: int| 0 <= p < n implies (#[trigger] all[p]) is None by {
            if dist(p as usize) is Some {
                let k = choose|k: int| 0 <= k < among.len() && among[k] == p as usize;
                assert(dist(among[k]) is None);
            }
        }
    }
}

impl Bvh {
    /// The nearest hit of a ray that passes through the boxes that `hit`
    /// accepts and meets the primitives at the distances that `dist` says:
    /// the nearest among the primitives that the walk reports, and `None`
    /// where the ray misses them all. Where the ray passes through the box
    /// of every primitive that it meets, this is the hit that a scan of all
    /// primitives finds.
    pub fn nearest_hit_as<F: Fn(&Aabb) -> bool, G: Fn(usize) -> Option<i32>>(
        &self,
        hits: F,
        distance: G,
        Ghost(hit): Ghost<BoxTest>,
        Ghost(dist): Ghost<Distances>,
    ) -> (out: Option<Hit>)
        requires
            answers_all(hits),
            decides(hits, hit),
            measures(distance, dist),
        ensures
            self@.wf(),
            out is None <==> misses_all(self@.candidates(hit), dist),
            out matches Some(found) ==> nearest_among(self@.candidates(hit), dist, found),
            // No false negatives: the walk leaves out no primitive that the
            // ray meets, so it finds what a scan of all primitives finds.
            grows_with_box(hit) && boxes_are_met(self@.boxes, hit, dist) ==> match out {
                Some(found) => is_nearest(scanned(self@.len(), dist), found.primitive as int)
                    && dist(found.primitive) == Some(found.distance),
                None => forall|p: int|
                    0 <= p < self@.len() ==> (#[trigger] scanned(self@.len(), dist)[p]) is None,
            },
    {
        let candidates = self.traverse_as(hits, Ghost(hit));
        let ghost among = candidates@;
        let mut best: Option<Hit> = None;
        let mut k: usize = 0;
        while k < candidates.len()
            invariant
                k <= candidates@.len(),
                among == candidates@,
                measures(distance, dist),
                best is None <==> misses_all(among.take(k as int), dist),
                best matches Some(found) ==> nearest_among(among.take(k as int), dist, found),
            decreases candidates@.len() - k,
        {
            let p: usize = candidates[k];
            let d: Option<i32> = distance(p);
            let ghost before = among.take(k as int);
            let ghost after = among.take(k + 1);
            let ghost was = best;
            proof {
                assert(d == dist(p));
                assert(after[k as int] == p);
                assert forall|j: int| 0 <= j < k implies before[j] == after[j] by {}
            }
            if let Some(e) = d {
                let better = match best {
                    None => true,
                    Some(found) => e < found.distance || (e == found.distance && p
                        < found.primitive),
                };
                if better {
                    best = Some(Hit { primitive: p, distance: e });
                }
            }
            proof {
                if best is Some {
                    let found = best->0;
                    if was is Some && was->0 == found {
                        let at = choose|j: int| 0 <= j < before.len() && before[j] == found.primitive;
                        assert(after[at] == found.primitive);
                    }
                    assert(after.contains(found.primitive));
                    assert forall|j: int|
                        0 <= j < after.len() && (#[trigger] dist(after[j])) is Some implies found.distance
                        < dist(after[j])->0 || (found.distance == dist(after[j])->0
                        && found.primitive <= after[j]) by {
                        if j < k {
                            assert(dist(before[j]) is Some);
                        }
                    }
                    assert(!misses_all(after, dist)) by {
                        let at = choose|j: int| 0 <= j < after.len() && after[j] == found.primitive;
                        assert(dist(after[at]) is Some);
                    }
                } else {
                    assert forall|j: int| 0 <= j < after.len() implies (#[trigger] dist(
                        after[j],
                    )) is None by {
                        if j < k {
                            assert(dist(before[j]) is None);
                        }
                    }
                }
            }
            k = k + 1;
        }
        proof {
            assert(among.take(candidates@.len() as int) =~= among);
            if grows_with_box(hit) && boxes_are_met(self@.boxes, hit, dist) {
                self@.lemma_candidates_distinct(hit);
                assert forall|p: usize| p < self@.len() && (#[trigger] dist(p)) is Some implies among.contains(
                    p,
                ) by {
                    assert(hit(self@.boxes[p as int]));
                }
                lemma_scan_agrees(self@.len(), among, dist);
            }
        }
        best
    }

    /// The nearest hit of a ray, for a box test and a measure of distances
    /// that each have one answer: as `nearest_hit_as`, for the test and the
    /// distances that the two stand for.
    pub fn nearest_hit<F: Fn(&Aabb) -> bool, G: Fn(usize) -> Option<i32>>(
        &self,
        hits: F,
        distance: G,
    ) -> (out: Option<Hit>)
        requires
            answers_all(hits),
            definite(hits),
            measures_surely(distance),
        ensures
            self@.wf(),
            out is None <==> misses_all(self@.candidates(accepts(hits)), measured(distance)),
            out matches Some(found) ==> nearest_among(
                self@.candidates(accepts(hits)),
                measured(distance),
                found,
            ),
            grows_with_box(accepts(hits)) && boxes_are_met(
                self@.boxes,
                accepts(hits),
                measured(distance),
            ) ==> match out {
                Some(found) => is_nearest(
                    scanned(self@.len(), measured(distance)),
                    found.primitive as int,
                ) && measured(distance)(found.primitive) == Some(found.distance),
                None => forall|p: int|
                    0 <= p < self@.len() ==> (#[trigger] scanned(
                        self@.len(),
                        measured(distance),
                    )[p]) is None,
            },
    {
        self.nearest_hit_as(hits, distance, Ghost(accepts(hits)), Ghost(measured(distance)))
    }
}

} // verus!
