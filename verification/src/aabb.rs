//! Axis-aligned bounding boxes on an integer grid.
//!
//! The hierarchy only ever compares coordinates, so it keeps them as integers:
//! a scene whose coordinates are real numbers is brought onto the grid by any
//! map that keeps their order (`grid` has one), and what is proved here of
//! minima, maxima and enclosure holds of the scene's own boxes.

use vstd::prelude::*;

verus! {

/// One of the three axes.
#[derive(Clone, Copy, Debug, PartialEq, Eq, Structural)]
pub enum Axis {
    X,
    Y,
    Z,
}

/// A point of the grid.
#[derive(Clone, Copy, Debug, PartialEq, Eq, Structural)]
pub struct GridPoint {
    pub x: i32,
    pub y: i32,
    pub z: i32,
}

/// A box with its faces along the axes, from `min` to `max`, both included.
#[derive(Clone, Copy, Debug, PartialEq, Eq, Structural)]
pub struct Aabb {
    pub min: GridPoint,
    pub max: GridPoint,
}

/// The smaller of two coordinates.
pub open spec fn lower(a: i32, b: i32) -> i32 {
    if a <= b {
        a
    } else {
        b
    }
}

/// The larger of two coordinates.
pub open spec fn upper(a: i32, b: i32) -> i32 {
    if a >= b {
        a
    } else {
        b
    }
}

fn lower_of(a: i32, b: i32) -> (m: i32)
    ensures
        m == lower(a, b),
{
    if a <= b {
        a
    } else {
        b
    }
}

fn upper_of(a: i32, b: i32) -> (m: i32)
    ensures
        m == upper(a, b),
{
    if a >= b {
        a
    } else {
        b
    }
}

impl GridPoint {
    /// The point's coordinate on `axis`.
    pub open spec fn coord(&self, axis: Axis) -> i32 {
        match axis {
            Axis::X => self.x,
            Axis::Y => self.y,
            Axis::Z => self.z,
        }
    }

    /// The point whose coordinates are the smaller ones of `self` and `other`.
    pub open spec fn meet(&self, other: GridPoint) -> GridPoint {
        GridPoint {
            x: lower(self.x, other.x),
            y: lower(self.y, other.y),
            z: lower(self.z, other.z),
        }
    }

    /// The point whose coordinates are the larger ones of `self` and `other`.
    pub open spec fn join(&self, other: GridPoint) -> GridPoint {
        GridPoint {
            x: upper(self.x, other.x),
            y: upper(self.y, other.y),
            z: upper(self.z, other.z),
        }
    }

    /// Whether no coordinate of `self` is larger than that of `other`.
    pub open spec fn below(&self, other: GridPoint) -> bool {
        self.x <= other.x && self.y <= other.y && self.z <= other.z
    }

    pub fn new(x: i32, y: i32, z: i32) -> (p: GridPoint)
        ensures
            p == (GridPoint { x, y, z }),
    {
        GridPoint { x, y, z }
    }

    /// The point's coordinate on `axis`.
    pub fn along(&self, axis: Axis) -> (c: i32)
        ensures
            c == self.coord(axis),
    {
        match axis {
            Axis::X => self.x,
            Axis::Y => self.y,
            Axis::Z => self.z,
        }
    }

    fn min_with(&self, other: &GridPoint) -> (p: GridPoint)
        ensures
            p == self.meet(*other),
    {
        GridPoint {
            x: lower_of(self.x, other.x),
            y: lower_of(self.y, other.y),
            z: lower_of(self.z, other.z),
        }
    }

    fn max_with(&self, other: &GridPoint) -> (p: GridPoint)
        ensures
            p == self.join(*other),
    {
        GridPoint {
            x: upper_of(self.x, other.x),
            y: upper_of(self.y, other.y),
            z: upper_of(self.z, other.z),
        }
    }
}

impl Aabb {
    /// Whether `inner` lies in `self`, faces included.
    pub open spec fn encloses(&self, inner: Aabb) -> bool {
        self.min.below(inner.min) && inner.max.below(self.max)
    }

    /// Whether `p` lies in `self`, faces included.
    pub open spec fn holds(&self, p: GridPoint) -> bool {
        self.min.below(p) && p.below(self.max)
    }

    /// The smallest box that encloses `self` and `other`.
    pub open spec fn hull(&self, other: Aabb) -> Aabb {
        Aabb { min: self.min.meet(other.min), max: self.max.join(other.max) }
    }

    /// The smallest box that holds the three corners of a triangle.
    pub open spec fn of_triangle(a: GridPoint, b: GridPoint, c: GridPoint) -> Aabb {
        Aabb { min: a.meet(c).meet(b), max: a.join(c).join(b) }
    }

    /// Twice the box's centre on `axis`.
    pub open spec fn centre2(&self, axis: Axis) -> int {
        self.min.coord(axis) + self.max.coord(axis)
    }

    pub fn with_bounds(min: GridPoint, max: GridPoint) -> (b: Aabb)
        ensures
            b == (Aabb { min, max }),
    {
        Aabb { min, max }
    }

    /// The smallest box that encloses `self` and `other`.
    pub fn join(&self, other: &Aabb) -> (b: Aabb)
        ensures
            b == self.hull(*other),
    {
        Aabb { min: self.min.min_with(&other.min), max: self.max.max_with(&other.max) }
    }

    /// The bounding box of the triangle with corners `a`, `b` and `c`: on
    /// each axis from the least of the three coordinates to the greatest.
    pub fn around_triangle(a: &GridPoint, b: &GridPoint, c: &GridPoint) -> (bounds: Aabb)
        ensures
            bounds == Aabb::of_triangle(*a, *b, *c),
            bounds.holds(*a),
            bounds.holds(*b),
            bounds.holds(*c),
            forall|other: Aabb|
                other.holds(*a) && other.holds(*b) && other.holds(*c) ==> other.encloses(bounds),
    {
        let min = GridPoint {
            x: lower_of(lower_of(a.x, c.x), b.x),
            y: lower_of(lower_of(a.y, c.y), b.y),
            z: lower_of(lower_of(a.z, c.z), b.z),
        };
        let max = GridPoint {
            x: upper_of(upper_of(a.x, c.x), b.x),
            y: upper_of(upper_of(a.y, c.y), b.y),
            z: upper_of(upper_of(a.z, c.z), b.z),
        };
        Aabb { min, max }
    }

    /// Whether `inner` lies in `self`.
    pub fn contains(&self, inner: &Aabb) -> (yes: bool)
        ensures
            yes == self.encloses(*inner),
    {
        self.min.x <= inner.min.x && self.min.y <= inner.min.y && self.min.z <= inner.min.z
            && inner.max.x <= self.max.x && inner.max.y <= self.max.y && inner.max.z
            <= self.max.z
    }

    /// Twice the box's centre on `axis`: the sum of its two faces there.
    pub fn centre_twice(&self, axis: Axis) -> (c: i64)
        ensures
            c == self.centre2(axis),
    {
        self.min.along(axis) as i64 + self.max.along(axis) as i64
    }

    /// A hull encloses both boxes it was made of, and every box that
    /// encloses both encloses the hull.
    pub proof fn lemma_hull_is_least(a: Aabb, b: Aabb, other: Aabb)
        ensures
            a.hull(b).encloses(a),
            a.hull(b).encloses(b),
            other.encloses(a) && other.encloses(b) ==> other.encloses(a.hull(b)),
    {
    }

    /// Enclosure is a preorder: every box encloses itself, and what encloses
    /// a box encloses what that box encloses.
    pub proof fn lemma_encloses_is_preorder(a: Aabb, b: Aabb, c: Aabb)
        ensures
            a.encloses(a),
            a.encloses(b) && b.encloses(c) ==> a.encloses(c),
    {
    }

    /// Hulls may be taken in any order and grouping.
    pub proof fn lemma_hull_laws(a: Aabb, b: Aabb, c: Aabb)
        ensures
            a.hull(b) == b.hull(a),
            a.hull(b).hull(c) == a.hull(b.hull(c)),
            a.hull(a) == a,
    {
    }
}

} // verus!
