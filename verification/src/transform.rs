//! Local and world transforms, and the rule composing a parent's world
//! transform with a child's local transform: positions add, rotations add and
//! wrap into [0, 360), scales multiply component-wise.

use vstd::prelude::*;
use crate::geom::Vec2;

verus! {

/// Bound on a local transform's position and rotation components.
pub const LOCAL_LIMIT: i64 = 1_000_000_000;

/// Bound on a local transform's scale components.
pub const LOCAL_SCALE_LIMIT: i64 = 1_000;

/// Bound on a world transform's position components.
pub const WORLD_POS_LIMIT: i64 = 1_000_000_000_000;

/// Bound on a world transform's scale components.
pub const WORLD_SCALE_LIMIT: i64 = 1_000;

/// A local transform, authored by movement logic.
#[derive(Clone, Copy, PartialEq, Eq, Structural, Debug)]
pub struct Transform {
    pub position: Vec2,
    pub rotation: i64,
    pub scale: Vec2,
}

/// A world-space transform, derived from the local transforms along the
/// path from a root entity.
#[derive(Clone, Copy, PartialEq, Eq, Structural, Debug)]
pub struct GlobalTransform {
    pub position: Vec2,
    pub rotation: i64,
    pub scale: Vec2,
}

/// Mathematical model of a world transform, free of machine-integer bounds.
pub ghost struct GtM {
    pub px: int,
    pub py: int,
    pub rot: int,
    pub sx: int,
    pub sy: int,
}

/// A rotation wrapped into [0, 360); `%` is Euclidean in specifications.
pub open spec fn wrap360(r: int) -> int {
    r % 360
}

/// World transform of a root entity: its local transform, rotation wrapped.
pub open spec fn root_model(t: Transform) -> GtM {
    GtM {
        px: t.position.x as int,
        py: t.position.y as int,
        rot: wrap360(t.rotation as int),
        sx: t.scale.x as int,
        sy: t.scale.y as int,
    }
}

/// World transform of a child: compose the parent's world transform with
/// the child's local transform.
pub open spec fn compose_model(p: GtM, l: Transform) -> GtM {
    GtM {
        px: p.px + l.position.x,
        py: p.py + l.position.y,
        rot: wrap360(p.rot + l.rotation),
        sx: p.sx * l.scale.x,
        sy: p.sy * l.scale.y,
    }
}

/// The model lies within the bounds a `GlobalTransform` value can hold.
pub open spec fn gtm_within(g: GtM) -> bool {
    &&& -WORLD_POS_LIMIT <= g.px <= WORLD_POS_LIMIT
    &&& -WORLD_POS_LIMIT <= g.py <= WORLD_POS_LIMIT
    &&& 0 <= g.rot < 360
    &&& 0 <= g.sx <= WORLD_SCALE_LIMIT
    &&& 0 <= g.sy <= WORLD_SCALE_LIMIT
}

impl Transform {
    /// The mathematical world transform this local transform yields at a root.
    pub open spec fn wf(self) -> bool {
        &&& -LOCAL_LIMIT <= self.position.x <= LOCAL_LIMIT
        &&& -LOCAL_LIMIT <= self.position.y <= LOCAL_LIMIT
        &&& -LOCAL_LIMIT <= self.rotation <= LOCAL_LIMIT
        &&& 0 <= self.scale.x <= LOCAL_SCALE_LIMIT
        &&& 0 <= self.scale.y <= LOCAL_SCALE_LIMIT
    }
}

impl Default for Transform {
    /// Identity transform: zero position and rotation, unit scale.
    fn default() -> (t: Transform)
        ensures
            t.position == (Vec2 { x: 0, y: 0 }),
            t.rotation == 0,
            t.scale == (Vec2 { x: 1, y: 1 }),
    {
        Transform { position: Vec2 { x: 0, y: 0 }, rotation: 0, scale: Vec2 { x: 1, y: 1 } }
    }
}

impl GlobalTransform {
    /// The mathematical transform this value denotes.
    pub open spec fn m(self) -> GtM {
        GtM {
            px: self.position.x as int,
            py: self.position.y as int,
            rot: self.rotation as int,
            sx: self.scale.x as int,
            sy: self.scale.y as int,
        }
    }

    pub open spec fn wf(self) -> bool {
        gtm_within(self.m())
    }

    /// World transform of an entity with no parent.
    pub fn from_root(t: &Transform) -> (g: GlobalTransform)
        requires
            t.wf(),
        ensures
            g.m() == root_model(*t),
            g.wf(),
    {
        GlobalTransform {
            position: t.position,
            rotation: wrap_rotation(t.rotation),
            scale: t.scale,
        }
    }

    /// World transform of a child, from its parent's world transform and its
    /// own local transform.
    pub fn from_local(parent: &GlobalTransform, local: &Transform) -> (g: GlobalTransform)
        requires
            parent.wf(),
            local.wf(),
            gtm_within(compose_model(parent.m(), *local)),
        ensures
            g.m() == compose_model(parent.m(), *local),
            g.wf(),
    {
        proof {
            assert(parent.scale.x * local.scale.x <= WORLD_SCALE_LIMIT && 0 <= parent.scale.x * local.scale.x) by (nonlinear_arith)
                requires
                    0 <= parent.scale.x,
                    0 <= local.scale.x,
                    gtm_within(compose_model(parent.m(), *local)),
                    compose_model(parent.m(), *local).sx == parent.scale.x * local.scale.x,
            {}
            assert(parent.scale.y * local.scale.y <= WORLD_SCALE_LIMIT && 0 <= parent.scale.y * local.scale.y) by (nonlinear_arith)
                requires
                    0 <= parent.scale.y,
                    0 <= local.scale.y,
                    gtm_within(compose_model(parent.m(), *local)),
                    compose_model(parent.m(), *local).sy == parent.scale.y * local.scale.y,
            {}
        }
        GlobalTransform {
            position: Vec2 {
                x: parent.position.x + local.position.x,
                y: parent.position.y + local.position.y,
            },
            rotation: wrap_rotation(parent.rotation + local.rotation),
            scale: Vec2 { x: parent.scale.x * local.scale.x, y: parent.scale.y * local.scale.y },
        }
    }
}

/// Wrap a rotation into [0, 360) degrees.
pub fn wrap_rotation(r: i64) -> (w: i64)
    ensures
        w as int == wrap360(r as int),
        0 <= w < 360,
{
    proof {
        vstd::arithmetic::div_mod::lemma_mod_bound(r as int, 360);
    }
    match r.checked_rem_euclid(360) {
        Some(v) => v,
        None => {
            proof {
                assert(false);
            }
            0
        },
    }
}

} // verus!
