//! Choosing among hits: the nearest root of a primitive's equation that lies
//! in range, and the nearest of the primitives that a ray meets.
//!
//! Distances are only ever compared here, so they are kept as integers, as
//! the coordinates of the hierarchy's boxes are: any map of the scene's
//! distances to integers that keeps their order will do, such as the one of
//! `grid`.

use vstd::prelude::*;

verus! {

/// The distances along a ray at which it meets a primitive's surface.
#[derive(Clone, Copy, Debug, PartialEq, Eq, Structural)]
pub enum Roots {
    No,
    One(i32),
    Two(i32, i32),
}

/// Whether `x` lies between `t_min` and `t_max`, both included. What is
/// nearer than `t_min` is the surface that the ray has just left; what is
/// farther than `t_max` lies beyond the scene.
pub open spec fn in_range(x: i32, t_min: i32, t_max: i32) -> bool {
    t_min <= x <= t_max
}

impl Roots {
    /// Whether `x` is one of the roots.
    pub open spec fn has(&self, x: i32) -> bool {
        match *self {
            Roots::No => false,
            Roots::One(a) => x == a,
            Roots::Two(a, b) => x == a || x == b,
        }
    }

    /// The least of the roots that lie in range, or `None` where none does.
    pub fn nearest_in(&self, t_min: i32, t_max: i32) -> (hit: Option<i32>)
        ensures
            hit matches Some(x) ==> self.has(x) && in_range(x, t_min, t_max) && forall|y: i32|
                self.has(y) && in_range(y, t_min, t_max) ==> x <= y,
            hit is None ==> forall|y: i32| self.has(y) ==> !in_range(y, t_min, t_max),
    {
        match *self {
            Roots::No => None,
            Roots::One(x) => {
                if t_min <= x && x <= t_max {
                    Some(x)
                } else {
                    None
                }
            },
            Roots::Two(x, y) => {
                let x_in_range = t_min <= x && x <= t_max;
                let y_in_range = t_min <= y && y <= t_max;
                if x_in_range && y_in_range {
                    Some(if x < y {
                        x
                    } else {
                        y
                    })
                } else if x_in_range {
                    Some(x)
                } else if y_in_range {
                    Some(y)
                } else {
                    None
                }
            },
        }
    }
}

/// Whether `at` is the place of the nearest hit among `distances`: a hit
/// that no hit is nearer than, and the first of those that are as near.
pub open spec fn is_nearest(distances: Seq<Option<i32>>, at: int) -> bool {
    &&& 0 <= at < distances.len()
    &&& distances[at] is Some
    &&& forall|k: int|
        0 <= k < distances.len() && (#[trigger] distances[k]) is Some ==> distances[at]->0
            <= distances[k]->0
    &&& forall|k: int|
        0 <= k < at && (#[trigger] distances[k]) is Some ==> distances[at]->0 < distances[k]->0
}

/// The place of the nearest hit, where `distances` has for each primitive
/// that was tried the distance at which the ray meets it, or `None` where it
/// misses. `None` where the ray misses them all.
pub fn nearest(distances: &Vec<Option<i32>>) -> (at: Option<usize>)
    ensures
        at is None <==> forall|k: int|
            0 <= k < distances@.len() ==> (#[trigger] distances@[k]) is None,
        at matches Some(i) ==> is_nearest(distances@, i as int),
{
    let mut found: bool = false;
    let mut best: usize = 0;
    let mut least: i32 = 0;
    let mut k: usize = 0;
    while k < distances.len()
        invariant
            k <= distances@.len(),
            !found <==> forall|j: int| 0 <= j < k ==> (#[trigger] distances@[j]) is None,
            found ==> best < k && distances@[best as int] == Some(least) && is_nearest(
                distances@.take(k as int),
                best as int,
            ),
        decreases distances@.len() - k,
    {
        let ghost before = distances@.take(k as int);
        let ghost after = distances@.take(k + 1);
        if let Some(d) = distances[k] {
            if !found || d < least {
                found = true;
                best = k;
                least = d;
            }
        }
        proof {
            assert forall|j: int| 0 <= j < k implies before[j] == after[j] by {}
            if found {
                let i = best as int;
                assert forall|j: int|
                    0 <= j < after.len() && (#[trigger] after[j]) is Some implies after[i]->0
                    <= after[j]->0 by {
                    if j < k {
                        assert(before[j] is Some);
                    }
                }
                assert forall|j: int| 0 <= j < i && (#[trigger] after[j]) is Some implies after[i]->0
                    < after[j]->0 by {
                    assert(before[j] is Some);
                }
            }
        }
        k = k + 1;
    }
    assert(distances@.take(distances@.len() as int) =~= distances@);
    if found {
        Some(best)
    } else {
        None
    }
}

/// There is one nearest hit at most.
pub proof fn lemma_nearest_is_one(distances: Seq<Option<i32>>, a: int, b: int)
    requires
        is_nearest(distances, a),
        is_nearest(distances, b),
    ensures
        a == b,
{
}

} // verus!
