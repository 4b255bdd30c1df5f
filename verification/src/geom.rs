//! Plane geometry: integer 2D vectors, axis-aligned rectangles, and the
//! overlap test that the collision resolver and the spatial index share.

use vstd::prelude::*;

verus! {

/// Bound on the corner coordinates of any rectangle stored in the spatial
/// index or derived from a world transform and a collider.
pub const RECT_BOUND: i64 = 4_000_000_000_000;

/// Bound on the extents (width and height) of any rectangle the core
/// handles; extents never change during collision resolution.
pub const EXTENT_BOUND: i64 = 1_000_000_000;

/// Bound on the corner coordinates of a mover's rectangle anywhere during a
/// resolution pass: clamping and pushing place a mover flush against an
/// obstacle edge, so coordinates drift by at most two extents per resolved
/// mover.
pub const MOVER_BOUND: i64 = 1_000_000_000_000_000_000;

/// Looser bound that holds for every intermediate rectangle handed to the
/// overlap test while the resolver clamps and pushes a mover around.
pub const RESOLVE_BOUND: i64 = 2_000_000_000_000_000_000;

/// Bound on any value handed to the floor-division helper.
pub const DIV_ARG_BOUND: i64 = 5_000_000_000_000_000_000;

/// A 2D vector with integer components.
#[derive(Clone, Copy, PartialEq, Eq, Structural, Debug)]
pub struct Vec2 {
    pub x: i64,
    pub y: i64,
}

/// An axis-aligned rectangle: top-left corner plus extents.
#[derive(Clone, Copy, PartialEq, Eq, Structural, Debug)]
pub struct Rect {
    pub x: i64,
    pub y: i64,
    pub width: i64,
    pub height: i64,
}

/// Mathematical model of a rectangle, free of machine-integer bounds.
pub ghost struct RectM {
    pub x: int,
    pub y: int,
    pub width: int,
    pub height: int,
}

impl Rect {
    /// The mathematical rectangle this value denotes.
    pub open spec fn m(self) -> RectM {
        RectM { x: self.x as int, y: self.y as int, width: self.width as int, height: self.height as int }
    }
}

/// All components of `r` lie within `b`, and the extents are non-negative.
pub open spec fn rect_within(r: RectM, b: int) -> bool {
    &&& -b <= r.x <= b
    &&& -b <= r.y <= b
    &&& 0 <= r.width <= b
    &&& 0 <= r.height <= b
}

/// The corner coordinates of `r` lie within `b`.
pub open spec fn rect_coords(r: RectM, b: int) -> bool {
    -b <= r.x <= b && -b <= r.y <= b
}

/// The extents of `r` are non-negative and bounded.
pub open spec fn rect_sized(r: RectM) -> bool {
    0 <= r.width <= EXTENT_BOUND && 0 <= r.height <= EXTENT_BOUND
}

/// Well-formedness of a rectangle handed to the spatial index.
pub open spec fn rect_wf(r: RectM) -> bool {
    rect_coords(r, RECT_BOUND as int) && rect_sized(r)
}

/// Two rectangles overlap when their interiors intersect on both axes;
/// rectangles that merely touch along an edge do not overlap.
pub open spec fn rects_overlap(a: RectM, b: RectM) -> bool {
    &&& a.x < b.x + b.width
    &&& b.x < a.x + a.width
    &&& a.y < b.y + b.height
    &&& b.y < a.y + a.height
}

impl Rect {
    /// Strict axis-aligned overlap test.
    pub fn collides_rect(&self, other: &Rect) -> (r: bool)
        requires
            rect_within(self.m(), RESOLVE_BOUND as int),
            rect_within(other.m(), RESOLVE_BOUND as int),
        ensures
            r == rects_overlap(self.m(), other.m()),
    {
        self.x < other.x + other.width && other.x < self.x + self.width
            && self.y < other.y + other.height && other.y < self.y + self.height
    }
}

/// Floor division of a bounded value by a positive divisor (`/` on `int` is
/// Euclidean, hence floor division for a positive divisor).
pub fn div_floor(a: i64, b: i64) -> (q: i64)
    requires
        1 <= b,
        -DIV_ARG_BOUND <= a <= DIV_ARG_BOUND,
    ensures
        q == a as int / b as int,
        a >= 0 ==> 0 <= q <= a,
        a < 0 ==> a <= q <= 0,
{
    proof {
        vstd::arithmetic::div_mod::lemma_fundamental_div_mod(a as int, b as int);
        vstd::arithmetic::div_mod::lemma_mod_bound(a as int, b as int);
        let qi = a as int / b as int;
        let r = a as int % b as int;
        assert(b * qi == a - r);
        assert((a >= 0 ==> 0 <= qi <= a) && (a < 0 ==> a <= qi <= 0)) by (nonlinear_arith)
            requires
                1 <= b,
                0 <= r < b,
                b * qi == a - r,
        {}
    }
    match a.checked_div_euclid(b) {
        Some(q) => q,
        None => {
            proof {
                assert(false);
            }
            0
        },
    }
}

} // verus!
