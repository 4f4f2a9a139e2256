//! Axis-aligned rectangles and the two geometric predicates the index is
//! built on: inclusive point containment and strict rectangle intersection.

use vstd::prelude::*;

verus! {

/// An axis-aligned rectangle with origin `(x, y)` and extent `(w, h)`.
///
/// A `Rect` serves both as a spatial region (a node boundary or a query
/// window, where `w >= 0` and `h >= 0` are expected) and as a stored entry
/// (which may have zero or positive extent; only its origin decides where
/// it is placed).
#[derive(Clone, Copy, Debug, PartialEq, Eq, Structural)]
pub struct Rect {
    pub x: i32,
    pub y: i32,
    pub w: i32,
    pub h: i32,
}

impl Rect {
    /// The origin of `point` lies within `[x, x + w] x [y, y + h]`.
    ///
    /// All four edges are inclusive: a point exactly on the right or bottom
    /// edge counts as contained, so two quadrants sharing an edge can both
    /// contain a point on that edge. Only the origin of `point` is tested;
    /// its extent is ignored.
    pub open spec fn spec_contains(self, point: Rect) -> bool {
        &&& point.x >= self.x
        &&& point.x <= self.x + self.w
        &&& point.y >= self.y
        &&& point.y <= self.y + self.h
    }

    /// The separating-axis test: `self` and `other` overlap in both axes.
    ///
    /// The comparisons are strict, so two rectangles touching exactly at an
    /// edge do not intersect. This is deliberately asymmetric to the
    /// inclusive `spec_contains`.
    pub open spec fn spec_intersects(self, other: Rect) -> bool {
        &&& self.x < other.x + other.w
        &&& self.x + self.w > other.x
        &&& self.y < other.y + other.h
        &&& self.y + self.h > other.y
    }

    /// Inclusive containment of `point`'s origin, as `spec_contains` states.
    pub fn contains(&self, point: &Rect) -> (r: bool)
        ensures
            r == self.spec_contains(*point),
    {
        (point.x as i64) >= (self.x as i64)
            && (point.x as i64) <= (self.x as i64) + (self.w as i64)
            && (point.y as i64) >= (self.y as i64)
            && (point.y as i64) <= (self.y as i64) + (self.h as i64)
    }

    /// Strict rectangle intersection, as `spec_intersects` states.
    pub fn intersects(&self, other: &Rect) -> (r: bool)
        ensures
            r == self.spec_intersects(*other),
    {
        (self.x as i64) < (other.x as i64) + (other.w as i64)
            && (self.x as i64) + (self.w as i64) > (other.x as i64)
            && (self.y as i64) < (other.y as i64) + (other.h as i64)
            && (self.y as i64) + (self.h as i64) > (other.y as i64)
    }

    /// `self` encloses `other`: every point of `other`, edges included,
    /// also lies in `self`.
    pub open spec fn spec_encloses(self, other: Rect) -> bool {
        &&& self.x <= other.x
        &&& self.y <= other.y
        &&& other.x + other.w <= self.x + self.w
        &&& other.y + other.h <= self.y + self.h
    }

    /// The north-west quadrant of `self`: same origin, halved extent.
    /// Halving truncates, exactly as the executable subdivision does.
    pub open spec fn nw_quadrant(self) -> Rect {
        Rect { x: self.x, y: self.y, w: (self.w / 2) as i32, h: (self.h / 2) as i32 }
    }

    /// The north-east quadrant of `self`.
    pub open spec fn ne_quadrant(self) -> Rect {
        Rect {
            x: (self.x + self.w / 2) as i32,
            y: self.y,
            w: (self.w / 2) as i32,
            h: (self.h / 2) as i32,
        }
    }

    /// The south-west quadrant of `self`.
    pub open spec fn sw_quadrant(self) -> Rect {
        Rect {
            x: self.x,
            y: (self.y + self.h / 2) as i32,
            w: (self.w / 2) as i32,
            h: (self.h / 2) as i32,
        }
    }

    /// The south-east quadrant of `self`.
    pub open spec fn se_quadrant(self) -> Rect {
        Rect {
            x: (self.x + self.w / 2) as i32,
            y: (self.y + self.h / 2) as i32,
            w: (self.w / 2) as i32,
            h: (self.h / 2) as i32,
        }
    }
}

} // verus!
