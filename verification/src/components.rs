//! Per-entity components consumed by the simulation core: sprites with an
//! anchoring origin, rectangle colliders, and per-tick velocities.
//!
//! Origins are stored in per-mille of the sprite's extent, so the nine
//! standard anchors and custom anchors are all plain integer data.

use vstd::prelude::*;
use crate::geom::Vec2;

verus! {

/// Bound on sprite and collider extents.
pub const SIZE_LIMIT: i64 = 1_000_000;

/// Origins are fractions of the extent with this fixed denominator.
pub const ORIGIN_DENOM: i64 = 1000;

/// Bound on a collider's anchoring offset.
pub const OFFSET_LIMIT: i64 = 1_000_000_000;

/// Bound on a velocity's components.
pub const VEL_LIMIT: i64 = 1_000_000_000;

/// Where a sprite is anchored relative to its rectangle, in per-mille of
/// its extent. A custom origin must lie within `[0, ORIGIN_DENOM]` on both
/// axes.
#[derive(Clone, Copy, PartialEq, Eq, Structural, Debug)]
pub enum SpriteOrigin {
    TopLeft,
    Top,
    TopRight,
    Left,
    Middle,
    Right,
    BottomLeft,
    Bottom,
    BottomRight,
    Custom(Vec2),
}

/// Per-mille anchor fractions of an origin.
pub open spec fn origin_vector(o: SpriteOrigin) -> Vec2 {
    match o {
        SpriteOrigin::TopLeft => Vec2 { x: 0, y: 0 },
        SpriteOrigin::Top => Vec2 { x: 500, y: 0 },
        SpriteOrigin::TopRight => Vec2 { x: 1000, y: 0 },
        SpriteOrigin::Left => Vec2 { x: 0, y: 500 },
        SpriteOrigin::Middle => Vec2 { x: 500, y: 500 },
        SpriteOrigin::Right => Vec2 { x: 1000, y: 500 },
        SpriteOrigin::BottomLeft => Vec2 { x: 0, y: 1000 },
        SpriteOrigin::Bottom => Vec2 { x: 500, y: 1000 },
        SpriteOrigin::BottomRight => Vec2 { x: 1000, y: 1000 },
        SpriteOrigin::Custom(v) => v,
    }
}

impl SpriteOrigin {
    /// A custom origin stays within the unit square.
    pub open spec fn wf(self) -> bool {
        &&& 0 <= origin_vector(self).x <= ORIGIN_DENOM
        &&& 0 <= origin_vector(self).y <= ORIGIN_DENOM
    }
}

impl Default for SpriteOrigin {
    /// Sprites anchor at their bottom centre unless told otherwise.
    fn default() -> (o: SpriteOrigin)
        ensures
            o == SpriteOrigin::Bottom,
    {
        SpriteOrigin::Bottom
    }
}

/// Visual shape of a sprite; only its bounding extents matter here. The
/// pixel data of a textured sprite lives with the renderer, outside this
/// core.
#[derive(Clone, Copy, PartialEq, Eq, Structural, Debug)]
pub enum SpriteKind {
    Rectangle { size: Vec2, lines: bool },
    Circle { radius: i64 },
    Texture { size: Vec2 },
}

impl SpriteKind {
    pub open spec fn wf(self) -> bool {
        match self {
            SpriteKind::Rectangle { size, .. } => 0 <= size.x <= SIZE_LIMIT && 0 <= size.y
                <= SIZE_LIMIT,
            SpriteKind::Circle { radius } => 0 <= radius <= SIZE_LIMIT,
            SpriteKind::Texture { size } => 0 <= size.x <= SIZE_LIMIT && 0 <= size.y <= SIZE_LIMIT,
        }
    }
}

impl Default for SpriteKind {
    /// A filled 32 by 32 rectangle.
    fn default() -> (k: SpriteKind)
        ensures
            k == (SpriteKind::Rectangle { size: Vec2 { x: 32, y: 32 }, lines: false }),
    {
        SpriteKind::Rectangle { size: Vec2 { x: 32, y: 32 }, lines: false }
    }
}

/// A sprite: a shape plus the origin anchoring it to the entity's position.
#[derive(Clone, Copy, PartialEq, Eq, Structural, Debug)]
pub struct Sprite {
    pub kind: SpriteKind,
    pub origin: SpriteOrigin,
}

impl Sprite {
    pub open spec fn wf(self) -> bool {
        self.kind.wf() && self.origin.wf()
    }

    /// The anchor fractions of this sprite's origin, in per-mille.
    pub fn get_origin_vector(&self) -> (v: Vec2)
        ensures
            v == origin_vector(self.origin),
    {
        match self.origin {
            SpriteOrigin::TopLeft => Vec2 { x: 0, y: 0 },
            SpriteOrigin::Top => Vec2 { x: 500, y: 0 },
            SpriteOrigin::TopRight => Vec2 { x: 1000, y: 0 },
            SpriteOrigin::Left => Vec2 { x: 0, y: 500 },
            SpriteOrigin::Middle => Vec2 { x: 500, y: 500 },
            SpriteOrigin::Right => Vec2 { x: 1000, y: 500 },
            SpriteOrigin::BottomLeft => Vec2 { x: 0, y: 1000 },
            SpriteOrigin::Bottom => Vec2 { x: 500, y: 1000 },
            SpriteOrigin::BottomRight => Vec2 { x: 1000, y: 1000 },
            SpriteOrigin::Custom(v) => v,
        }
    }
}

impl Default for Sprite {
    fn default() -> (s: Sprite)
        ensures
            s.kind == (SpriteKind::Rectangle { size: Vec2 { x: 32, y: 32 }, lines: false }),
            s.origin == SpriteOrigin::Bottom,
    {
        Sprite { kind: SpriteKind::default(), origin: SpriteOrigin::default() }
    }
}

/// Collision shape of an entity; rectangle-only.
#[derive(Clone, Copy, PartialEq, Eq, Structural, Debug)]
pub enum ColliderKind {
    Rectangle(Vec2),
}

/// A collider: a shape plus the offset anchoring the shape's rectangle
/// relative to the owning entity's world position.
#[derive(Clone, Copy, PartialEq, Eq, Structural, Debug)]
pub struct Collider {
    pub kind: ColliderKind,
    pub offset: Vec2,
}

impl Collider {
    pub open spec fn wf(self) -> bool {
        match self.kind {
            ColliderKind::Rectangle(size) => {
                &&& 0 <= size.x <= SIZE_LIMIT
                &&& 0 <= size.y <= SIZE_LIMIT
                &&& -OFFSET_LIMIT <= self.offset.x <= OFFSET_LIMIT
                &&& -OFFSET_LIMIT <= self.offset.y <= OFFSET_LIMIT
            },
        }
    }
}

impl Default for Collider {
    /// A 32 by 32 rectangle anchored at the entity's position.
    fn default() -> (c: Collider)
        ensures
            c.kind == ColliderKind::Rectangle(Vec2 { x: 32, y: 32 }),
            c.offset == (Vec2 { x: 0, y: 0 }),
    {
        Collider { kind: ColliderKind::Rectangle(Vec2 { x: 32, y: 32 }), offset: Vec2 { x: 0, y: 0 } }
    }
}

/// Displacement applied per tick, already scaled by elapsed time. An entity
/// with zero velocity on both axes counts as stationary for collision
/// resolution.
#[derive(Clone, Copy, PartialEq, Eq, Structural, Debug)]
pub struct Velocity(pub Vec2);

impl Velocity {
    pub open spec fn wf(self) -> bool {
        &&& -VEL_LIMIT <= self.0.x <= VEL_LIMIT
        &&& -VEL_LIMIT <= self.0.y <= VEL_LIMIT
    }
}

impl Default for Velocity {
    fn default() -> (v: Velocity)
        ensures
            v == Velocity(Vec2 { x: 0, y: 0 }),
    {
        Velocity(Vec2 { x: 0, y: 0 })
    }
}

} // verus!
