//! The per-tick passes over the entity arena: deriving collider offsets and
//! world rectangles, keeping the spatial index in sync, visibility culling,
//! and the small decision helpers around them. Collision resolution, which
//! consumes these, lives in its own pass below.

use vstd::prelude::*;
use crate::camera::{view_rect_model, Camera, SCREEN_LIMIT};
use crate::components::{
    origin_vector, Collider, ColliderKind, Sprite, SpriteKind, OFFSET_LIMIT, SIZE_LIMIT, VEL_LIMIT,
};
use crate::entity::EntityRecord;
use crate::geom::{rect_wf, Rect, RectM, Vec2, div_floor, EXTENT_BOUND, MOVER_BOUND, RECT_BOUND};
use crate::spatial_hash::{query_model, SpatialHash};
use crate::transform::{GlobalTransform, GtM, WORLD_SCALE_LIMIT};

verus! {

/// Bound on the number of records a resolution pass accepts; it keeps every
/// resolved coordinate within machine range however movers stack up.
pub const ENTITY_LIMIT: usize = 100_000_000;

/// A record the resolver treats as a mover with a collision shape.
pub open spec fn is_colliding_mover(r: EntityRecord) -> bool {
    r.velocity is Some && r.collider is Some && r.world is Some
}

/// A record whose velocity is applied directly, with no collision check.
pub open spec fn is_plain_mover(r: EntityRecord) -> bool {
    r.velocity is Some && r.collider is None && r.world is Some
}

/// A record the broad phase may hand back as a static obstacle.
pub open spec fn is_static_obstacle(r: EntityRecord) -> bool {
    r.velocity is None && r.collider is Some && r.world is Some
}

/// The world-space rectangle of a collider anchored at a world transform:
/// the position minus the anchoring offset, sized by the shape scaled by the
/// world scale.
pub open spec fn collider_rect_model(c: Collider, g: GtM) -> RectM {
    match c.kind {
        ColliderKind::Rectangle(size) => RectM {
            x: g.px - c.offset.x,
            y: g.py - c.offset.y,
            width: size.x * g.sx,
            height: size.y * g.sy,
        },
    }
}

/// The anchoring offset a collider is owed from its sprite's origin: the
/// scaled shape times the origin fraction.
pub open spec fn collider_offset_model(c: Collider, s: Sprite, g: GtM) -> (int, int) {
    match c.kind {
        ColliderKind::Rectangle(size) => (
            size.x * g.sx * origin_vector(s.origin).x / 1000,
            size.y * g.sy * origin_vector(s.origin).y / 1000,
        ),
    }
}

/// The world-space rectangle a sprite registers in the spatial index, if its
/// kind has one.
pub open spec fn sprite_rect_model(s: Sprite, g: GtM) -> Option<RectM> {
    match s.kind {
        SpriteKind::Rectangle { size, .. } => Some(
            RectM {
                x: g.px - size.x * g.sx * origin_vector(s.origin).x / 1000,
                y: g.py - size.y * g.sy * origin_vector(s.origin).y / 1000,
                width: size.x * g.sx,
                height: size.y * g.sy,
            },
        ),
        SpriteKind::Circle { radius } => Some(
            RectM {
                x: g.px - radius * g.sx * origin_vector(s.origin).x / 1000,
                y: g.py - radius * g.sy * origin_vector(s.origin).y / 1000,
                width: radius * g.sx,
                height: radius * g.sy,
            },
        ),
        SpriteKind::Texture { .. } => None,
    }
}

/// A scaled extent times an origin fraction over the fraction's denominator:
/// the product is bounded by the extent itself.
proof fn lemma_scaled_origin_bound(extent: int, ov: int)
    requires
        0 <= extent <= EXTENT_BOUND,
        0 <= ov <= 1000,
    ensures
        0 <= extent * ov / 1000 <= extent,
{
    assert(0 <= extent * ov <= extent * 1000) by (nonlinear_arith)
        requires
            0 <= extent,
            0 <= ov <= 1000,
    {}
    vstd::arithmetic::div_mod::lemma_div_is_ordered(0, extent * ov, 1000);
    vstd::arithmetic::div_mod::lemma_div_is_ordered(extent * ov, extent * 1000, 1000);
    vstd::arithmetic::div_mod::lemma_div_multiples_vanish(extent, 1000);
    assert(extent * 1000 == 1000 * extent);
}

/// A shape extent scaled by a world scale stays within the extent bound.
proof fn lemma_scaled_extent_bound(size: int, scale: int)
    requires
        0 <= size <= SIZE_LIMIT,
        0 <= scale <= WORLD_SCALE_LIMIT,
    ensures
        0 <= size * scale <= EXTENT_BOUND,
{
    assert(0 <= size * scale <= SIZE_LIMIT * WORLD_SCALE_LIMIT) by (nonlinear_arith)
        requires
            0 <= size <= SIZE_LIMIT,
            0 <= scale <= WORLD_SCALE_LIMIT,
    {}
}

/// The world-space rectangle of a collider at a world transform.
pub fn collider_world_rect(c: &Collider, g: &GlobalTransform) -> (r: Rect)
    requires
        c.wf(),
        g.wf(),
    ensures
        r.m() == collider_rect_model(*c, g.m()),
        rect_wf(r.m()),
{
    match c.kind {
        ColliderKind::Rectangle(size) => {
            proof {
                lemma_scaled_extent_bound(size.x as int, g.scale.x as int);
                lemma_scaled_extent_bound(size.y as int, g.scale.y as int);
            }
            Rect {
                x: g.position.x - c.offset.x,
                y: g.position.y - c.offset.y,
                width: size.x * g.scale.x,
                height: size.y * g.scale.y,
            }
        },
    }
}

/// The world-space rectangle a sprite registers in the spatial index, if its
/// kind has one.
pub fn sprite_world_rect(s: &Sprite, g: &GlobalTransform) -> (r: Option<Rect>)
    requires
        s.wf(),
        g.wf(),
    ensures
        r is Some <==> sprite_rect_model(*s, g.m()) is Some,
        r matches Some(rr) ==> rr.m() == sprite_rect_model(*s, g.m())->0 && rect_wf(rr.m()),
{
    let ov = s.get_origin_vector();
    match s.kind {
        SpriteKind::Rectangle { size, .. } => {
            proof {
                lemma_scaled_extent_bound(size.x as int, g.scale.x as int);
                lemma_scaled_extent_bound(size.y as int, g.scale.y as int);
                lemma_scaled_origin_bound(size.x * g.scale.x, ov.x as int);
                lemma_scaled_origin_bound(size.y * g.scale.y, ov.y as int);
            }
            let w = size.x * g.scale.x;
            let h = size.y * g.scale.y;
            Some(
                Rect {
                    x: g.position.x - div_floor(w * ov.x, 1000),
                    y: g.position.y - div_floor(h * ov.y, 1000),
                    width: w,
                    height: h,
                },
            )
        },
        SpriteKind::Circle { radius } => {
            proof {
                lemma_scaled_extent_bound(radius as int, g.scale.x as int);
                lemma_scaled_extent_bound(radius as int, g.scale.y as int);
                lemma_scaled_origin_bound(radius * g.scale.x, ov.x as int);
                lemma_scaled_origin_bound(radius * g.scale.y, ov.y as int);
            }
            let w = radius * g.scale.x;
            let h = radius * g.scale.y;
            Some(
                Rect {
                    x: g.position.x - div_floor(w * ov.x, 1000),
                    y: g.position.y - div_floor(h * ov.y, 1000),
                    width: w,
                    height: h,
                },
            )
        },
        SpriteKind::Texture { .. } => None,
    }
}

/// The anchoring offset a collider is owed from its sprite's origin.
fn collider_offset(c: &Collider, s: &Sprite, g: &GlobalTransform) -> (o: Vec2)
    requires
        c.wf(),
        s.wf(),
        g.wf(),
    ensures
        (o.x as int, o.y as int) == collider_offset_model(*c, *s, g.m()),
        -OFFSET_LIMIT <= o.x <= OFFSET_LIMIT,
        -OFFSET_LIMIT <= o.y <= OFFSET_LIMIT,
{
    let ov = s.get_origin_vector();
    match c.kind {
        ColliderKind::Rectangle(size) => {
            proof {
                lemma_scaled_extent_bound(size.x as int, g.scale.x as int);
                lemma_scaled_extent_bound(size.y as int, g.scale.y as int);
                lemma_scaled_origin_bound(size.x * g.scale.x, ov.x as int);
                lemma_scaled_origin_bound(size.y * g.scale.y, ov.y as int);
            }
            Vec2 {
                x: div_floor(size.x * g.scale.x * ov.x, 1000),
                y: div_floor(size.y * g.scale.y * ov.y, 1000),
            }
        },
    }
}

/// Re-derive each collider's anchoring offset from the entity's sprite
/// origin and world scale, for every record carrying all three parts.
pub fn sync_collider_with_sprite_system(recs: &mut Vec<EntityRecord>)
    requires
        forall|j: int|
            0 <= j < old(recs)@.len() ==> {
                let r = #[trigger] old(recs)@[j];
                &&& (r.sprite matches Some(s) ==> s.wf())
                &&& (r.collider matches Some(c) ==> c.wf())
                &&& (r.world matches Some(g) ==> g.wf())
            },
    ensures
        final(recs)@.len() == old(recs)@.len(),
        forall|j: int|
            0 <= j < old(recs)@.len() ==> {
                let o = old(recs)@[j];
                let r = #[trigger] final(recs)@[j];
                if o.collider is Some && o.sprite is Some && o.world is Some {
                    &&& r.collider is Some
                    &&& r.collider->0.kind == o.collider->0.kind
                    &&& (r.collider->0.offset.x as int, r.collider->0.offset.y as int)
                        == collider_offset_model(o.collider->0, o.sprite->0, o.world->0.m())
                    &&& r == EntityRecord { collider: r.collider, ..o }
                } else {
                    r == o
                }
            },
{
    let ghost olds = old(recs)@;
    let n = recs.len();
    let mut i: usize = 0;
    while i < n
        invariant
            olds == old(recs)@,
            n == olds.len(),
            recs@.len() == n,
            i <= n,
            forall|j: int|
                0 <= j < n ==> {
                    let r = #[trigger] olds[j];
                    &&& (r.sprite matches Some(s) ==> s.wf())
                    &&& (r.collider matches Some(c) ==> c.wf())
                    &&& (r.world matches Some(g) ==> g.wf())
                },
            forall|j: int| i <= j < n ==> #[trigger] recs@[j] == olds[j],
            forall|j: int|
                0 <= j < i ==> {
                    let o = olds[j];
                    let r = #[trigger] recs@[j];
                    if o.collider is Some && o.sprite is Some && o.world is Some {
                        &&& r.collider is Some
                        &&& r.collider->0.kind == o.collider->0.kind
                        &&& (r.collider->0.offset.x as int, r.collider->0.offset.y as int)
                            == collider_offset_model(o.collider->0, o.sprite->0, o.world->0.m())
                        &&& r == EntityRecord { collider: r.collider, ..o }
                    } else {
                        r == o
                    }
                },
        decreases n - i,
    {
        let has_all = recs[i].collider.is_some() && recs[i].sprite.is_some()
            && recs[i].world.is_some();
        if has_all {
            let c = match recs[i].collider {
                Some(c) => c,
                None => {
                    proof {
                        assert(false);
                    }
                    Collider::default()
                },
            };
            let s = match recs[i].sprite {
                Some(s) => s,
                None => {
                    proof {
                        assert(false);
                    }
                    Sprite::default()
                },
            };
            let g = match recs[i].world {
                Some(g) => g,
                None => {
                    proof {
                        assert(false);
                    }
                    GlobalTransform::from_root(&crate::transform::Transform::default())
                },
            };
            let off = collider_offset(&c, &s, &g);
            recs[i].collider = Some(Collider { kind: c.kind, offset: off });
        }
        i = i + 1;
    }
}

/// Does the query result list contain this entity?
fn ids_contain(ids: &Vec<u64>, e: u64) -> (r: bool)
    ensures
        r == ids@.contains(e),
{
    let mut i: usize = 0;
    while i < ids.len()
        invariant
            i <= ids@.len(),
            forall|j: int| 0 <= j < i ==> ids@[j] != e,
        decreases ids@.len() - i,
    {
        if ids[i] == e {
            return true;
        }
        i = i + 1;
    }
    false
}

/// Mark exactly the entities the spatial index reports for the camera's view
/// rectangle as on-screen, and unmark every other entity.
pub fn update_on_screen_system(
    recs: &mut Vec<EntityRecord>,
    hash: &SpatialHash,
    camera: &Camera,
    screen: Vec2,
)
    requires
        hash.wf(),
        camera.wf(),
        0 <= screen.x <= SCREEN_LIMIT,
        0 <= screen.y <= SCREEN_LIMIT,
    ensures
        final(recs)@.len() == old(recs)@.len(),
        forall|j: int|
            0 <= j < old(recs)@.len() ==> {
                let o = old(recs)@[j];
                let r = #[trigger] final(recs)@[j];
                &&& r == EntityRecord { on_screen: r.on_screen, ..o }
                &&& r.on_screen == query_model(
                    hash.rects(),
                    hash.cs(),
                    view_rect_model(camera.target, camera.zoom_milli as int, screen),
                ).contains(j as u64)
            },
{
    let ghost olds = old(recs)@;
    let view = crate::camera::camera_view_rect(camera, screen);
    let ids = hash.query(view);
    let ghost seen = query_model(
        hash.rects(),
        hash.cs(),
        view_rect_model(camera.target, camera.zoom_milli as int, screen),
    );
    let n = recs.len();
    let mut i: usize = 0;
    while i < n
        invariant
            olds == old(recs)@,
            n == olds.len(),
            recs@.len() == n,
            i <= n,
            forall|e: u64| ids@.contains(e) <==> seen.contains(e),
            forall|j: int| i <= j < n ==> #[trigger] recs@[j] == olds[j],
            forall|j: int|
                0 <= j < i ==> {
                    let o = olds[j];
                    let r = #[trigger] recs@[j];
                    &&& r == EntityRecord { on_screen: r.on_screen, ..o }
                    &&& r.on_screen == seen.contains(j as u64)
                },
        decreases n - i,
    {
        let m = ids_contain(&ids, i as u64);
        recs[i].on_screen = m;
        i = i + 1;
    }
}

/// A record whose rectangle is (re-)registered by the index pass: its world
/// transform changed since the last pass and its sprite has a rectangle.
pub open spec fn indexed(r: EntityRecord) -> bool {
    r.dirty && r.sprite is Some && r.world is Some && sprite_rect_model(r.sprite->0, r.world->0.m()) is Some
}

/// Registrations of entities other than the first `upto` re-indexed ones
/// are the same in `h` as in `h0`.
pub open spec fn others_keys_same(
    olds: Seq<EntityRecord>,
    upto: int,
    h0: Map<u64, RectM>,
    h: Map<u64, RectM>,
) -> bool {
    forall|e: u64|
        #![trigger h.contains_key(e)]
        !((e as int) < upto && indexed(olds[e as int])) ==> (h.contains_key(e)
            <==> h0.contains_key(e)) && (h0.contains_key(e) ==> h[e] == h0[e])
}

/// Re-register every entity whose world transform changed since the last
/// pass under its current sprite rectangle, and clear its change flag.
/// Everything else, and every other registration, stays as it is.
pub fn update_spatial_hash_system(recs: &mut Vec<EntityRecord>, hash: &mut SpatialHash)
    requires
        old(hash).wf(),
        forall|j: int|
            0 <= j < old(recs)@.len() ==> {
                let r = #[trigger] old(recs)@[j];
                &&& (r.sprite matches Some(s) ==> s.wf())
                &&& (r.world matches Some(g) ==> g.wf())
            },
    ensures
        final(recs)@.len() == old(recs)@.len(),
        final(hash).wf(),
        final(hash).cs() == old(hash).cs(),
        forall|j: int|
            0 <= j < old(recs)@.len() ==> {
                let o = old(recs)@[j];
                let r = #[trigger] final(recs)@[j];
                &&& r == (EntityRecord { dirty: r.dirty, ..o })
                &&& r.dirty == (o.dirty && !indexed(o))
            },
        forall|j: int|
            0 <= j < old(recs)@.len() && indexed(#[trigger] old(recs)@[j])
                ==> final(hash).rects().contains_key(j as u64)
                && final(hash).rects()[j as u64]
                == sprite_rect_model(old(recs)@[j].sprite->0, old(recs)@[j].world->0.m())->0,
        others_keys_same(
            old(recs)@,
            old(recs)@.len() as int,
            old(hash).rects(),
            final(hash).rects(),
        ),
{
    let ghost olds = old(recs)@;
    let n = recs.len();
    let mut i: usize = 0;
    while i < n
        invariant
            olds == old(recs)@,
            n == olds.len(),
            recs@.len() == n,
            i <= n,
            hash.wf(),
            hash.cs() == old(hash).cs(),
            forall|j: int|
                0 <= j < n ==> {
                    let r = #[trigger] olds[j];
                    &&& (r.sprite matches Some(s) ==> s.wf())
                    &&& (r.world matches Some(g) ==> g.wf())
                },
            forall|j: int| i <= j < n ==> #[trigger] recs@[j] == olds[j],
            forall|j: int|
                0 <= j < i ==> {
                    let o = olds[j];
                    let r = #[trigger] recs@[j];
                    &&& r == (EntityRecord { dirty: r.dirty, ..o })
                    &&& r.dirty == (o.dirty && !indexed(o))
                },
            forall|j: int|
                0 <= j < i && indexed(#[trigger] olds[j]) ==> hash.rects().contains_key(j as u64)
                    && hash.rects()[j as u64] == sprite_rect_model(
                    olds[j].sprite->0,
                    olds[j].world->0.m(),
                )->0,
            others_keys_same(olds, i as int, old(hash).rects(), hash.rects()),
        decreases n - i,
    {
        if recs[i].dirty && recs[i].sprite.is_some() && recs[i].world.is_some() {
            let s = match recs[i].sprite {
                Some(s) => s,
                None => {
                    proof {
                        assert(false);
                    }
                    Sprite::default()
                },
            };
            let g = match recs[i].world {
                Some(g) => g,
                None => {
                    proof {
                        assert(false);
                    }
                    GlobalTransform::from_root(&crate::transform::Transform::default())
                },
            };
            let maybe_rect = sprite_world_rect(&s, &g);
            match maybe_rect {
                Some(rect) => {
                    let ghost prev_rects = hash.rects();
                    hash.update(i as u64, rect);
                    recs[i].dirty = false;
                    proof {
                        assert(indexed(olds[i as int]));
                        assert(hash.rects() == prev_rects.insert(i as u64, rect.m()));
                        assert(rect.m() == sprite_rect_model(
                            olds[i as int].sprite->0,
                            olds[i as int].world->0.m(),
                        )->0);
                        assert forall|j: int|
                            0 <= j < i + 1 && indexed(#[trigger] olds[j]) implies hash.rects()
                            .contains_key(j as u64) && hash.rects()[j as u64] == sprite_rect_model(
                            olds[j].sprite->0,
                            olds[j].world->0.m(),
                        )->0 by {
                            if j < i {
                                assert(prev_rects.contains_key(j as u64));
                                assert((j as u64) != (i as u64));
                            }
                        }
                        assert(others_keys_same(olds, i + 1, old(hash).rects(), hash.rects()))
                            by {
                            assert forall|e: u64|
                                !((e as int) < i + 1 && indexed(olds[e as int])) implies (
                            hash.rects().contains_key(e) <==> old(hash).rects().contains_key(e))
                                && (old(hash).rects().contains_key(e) ==> hash.rects()[e] == old(
                                hash,
                            ).rects()[e]) by {
                                assert(e != (i as u64));
                                assert(!((e as int) < i && indexed(olds[e as int])));
                                assert(hash.rects().contains_key(e) == prev_rects.contains_key(e));
                                assert(prev_rects.contains_key(e) ==> hash.rects()[e]
                                    == prev_rects[e]);
                                assert((prev_rects.contains_key(e) <==> old(
                                    hash,
                                ).rects().contains_key(e)) && (old(hash).rects().contains_key(e)
                                    ==> prev_rects[e] == old(hash).rects()[e]));
                            }
                        }
                    }
                },
                None => {
                    proof {
                        assert(others_keys_same(olds, i + 1, old(hash).rects(), hash.rects()))
                            by {
                            assert forall|e: u64|
                                !((e as int) < i + 1 && indexed(olds[e as int])) implies (
                            #[trigger] hash.rects().contains_key(e) <==> old(
                                hash,
                            ).rects().contains_key(e)) && (old(hash).rects().contains_key(e)
                                ==> hash.rects()[e] == old(hash).rects()[e]) by {
                                assert(!((e as int) < i && indexed(olds[e as int])));
                            }
                        }
                    }
                },
            }
        } else {
            proof {
                assert(others_keys_same(olds, i + 1, old(hash).rects(), hash.rects())) by {
                    assert forall|e: u64|
                        !((e as int) < i + 1 && indexed(olds[e as int])) implies (
                    #[trigger] hash.rects().contains_key(e) <==> old(
                        hash,
                    ).rects().contains_key(e)) && (old(hash).rects().contains_key(e)
                        ==> hash.rects()[e] == old(hash).rects()[e]) by {
                        assert(!((e as int) < i && indexed(olds[e as int])));
                    }
                }
            }
        }
        i = i + 1;
    }
}

/// The world-space collider rectangle of a record carrying a collider and a
/// world transform.
pub open spec fn collider_rect_of(r: EntityRecord) -> RectM {
    collider_rect_model(r.collider->0, r.world->0.m())
}

/// The per-tick velocity of a record carrying one.
pub open spec fn vel_of(r: EntityRecord) -> (int, int) {
    ((r.velocity->0).0.x as int, (r.velocity->0).0.y as int)
}

/// Indices of the colliding movers among the first `n` records, in order.
pub open spec fn mover_idx_list(s: Seq<EntityRecord>, n: int) -> Seq<int>
    decreases n,
{
    if n <= 0 {
        Seq::empty()
    } else if is_colliding_mover(s[n - 1]) {
        mover_idx_list(s, n - 1).push(n - 1)
    } else {
        mover_idx_list(s, n - 1)
    }
}

proof fn lemma_mover_idx_list_props(s: Seq<EntityRecord>, n: int)
    requires
        0 <= n <= s.len(),
    ensures
        ({
            let ml = mover_idx_list(s, n);
            &&& ml.len() <= n
            &&& forall|t: int|
                0 <= t < ml.len() ==> 0 <= #[trigger] ml[t] < n && is_colliding_mover(s[ml[t]])
            &&& forall|t1: int, t2: int| 0 <= t1 < t2 < ml.len() ==> ml[t1] < ml[t2]
            &&& forall|j: int| 0 <= j < n && is_colliding_mover(#[trigger] s[j]) ==> ml.contains(j)
        }),
    decreases n,
{
    if n > 0 {
        lemma_mover_idx_list_props(s, n - 1);
        let pre = mover_idx_list(s, n - 1);
        let ml = mover_idx_list(s, n);
        assert forall|j: int|
            0 <= j < n && is_colliding_mover(#[trigger] s[j]) implies ml.contains(j) by {
            if j < n - 1 {
                assert(pre.contains(j));
                let t = choose|t: int| 0 <= t < pre.len() && pre[t] == j;
                assert(ml[t] == j);
            } else {
                assert(ml[ml.len() - 1] == j);
            }
        }
    }
}

/// The world rectangles of the static obstacles among the first `n` query
/// results, in result order; entities that are no longer present or are not
/// static obstacles are skipped.
pub open spec fn static_rects_of(s: Seq<EntityRecord>, ids: Seq<u64>, n: int) -> Seq<RectM>
    decreases n,
{
    if n <= 0 {
        Seq::empty()
    } else {
        let pre = static_rects_of(s, ids, n - 1);
        let e = ids[n - 1];
        if (e as int) < s.len() && is_static_obstacle(s[e as int]) {
            pre.push(collider_rect_of(s[e as int]))
        } else {
            pre
        }
    }
}

/// Every mover but the one at `k`, with its current rectangle and velocity,
/// in enumeration order.
pub open spec fn others_of(state: Seq<RectM>, vels: Seq<(int, int)>, k: int) -> Seq<
    (RectM, (int, int)),
> {
    Seq::new(
        (state.len() - 1) as nat,
        |t: int|
            if t < k {
                (state[t], vels[t])
            } else {
                (state[t + 1], vels[t + 1])
            },
    )
}

/// The movers' rectangles after the first `k` of them have been resolved in
/// order, each against its own static candidates and the then-current
/// rectangles of all the others.
pub open spec fn pass_state(
    rect0s: Seq<RectM>,
    vels: Seq<(int, int)>,
    sp: Seq<Seq<RectM>>,
    k: int,
) -> Seq<RectM>
    decreases k,
{
    if k <= 0 {
        rect0s
    } else {
        let st = pass_state(rect0s, vels, sp, k - 1);
        st.update(
            k - 1,
            crate::collision::resolve_one(
                st[k - 1],
                vels[k - 1].0,
                vels[k - 1].1,
                sp[k - 1],
                others_of(st, vels, k - 1),
            ),
        )
    }
}

proof fn lemma_pass_state_frame(
    rect0s: Seq<RectM>,
    vels: Seq<(int, int)>,
    sp: Seq<Seq<RectM>>,
    k: int,
)
    requires
        0 <= k <= rect0s.len(),
    ensures
        pass_state(rect0s, vels, sp, k).len() == rect0s.len(),
        forall|t: int| k <= t < rect0s.len() ==> pass_state(rect0s, vels, sp, k)[t] == rect0s[t],
    decreases k,
{
    if k > 0 {
        lemma_pass_state_frame(rect0s, vels, sp, k - 1);
    }
}

/// The state after `k` resolutions depends only on the first `k` candidate
/// lists.
proof fn lemma_pass_state_congruent(
    rect0s: Seq<RectM>,
    vels: Seq<(int, int)>,
    sp1: Seq<Seq<RectM>>,
    sp2: Seq<Seq<RectM>>,
    k: int,
)
    requires
        forall|t: int| 0 <= t < k ==> sp1[t] == sp2[t],
    ensures
        pass_state(rect0s, vels, sp1, k) == pass_state(rect0s, vels, sp2, k),
    decreases k,
{
    if k > 0 {
        lemma_pass_state_congruent(rect0s, vels, sp1, sp2, k - 1);
    }
}

/// Resolved settlement of one mover's record: both the stored world position
/// and the local position move by the net delta between the mover's original
/// and resolved rectangle, preserving any parent-relative offset; everything
/// else is untouched.
pub open spec fn moved_by(o: EntityRecord, r: EntityRecord, r0: RectM, r1: RectM) -> bool {
    &&& r == (EntityRecord { local: r.local, world: r.world, dirty: r.dirty, ..o })
    &&& r.dirty == (o.dirty || r1.x != r0.x || r1.y != r0.y)
    &&& r.local == (crate::transform::Transform { position: r.local.position, ..o.local })
    &&& r.local.position.x == o.local.position.x + (r1.x - r0.x)
    &&& r.local.position.y == o.local.position.y + (r1.y - r0.y)
    &&& r.world is Some
    &&& r.world->0 == (GlobalTransform { position: r.world->0.position, ..o.world->0 })
    &&& r.world->0.position.x == o.world->0.position.x + (r1.x - r0.x)
    &&& r.world->0.position.y == o.world->0.position.y + (r1.y - r0.y)
}

/// A mover without a collider has its velocity applied to its local position
/// directly, with no collision check; everything else is untouched.
pub open spec fn plain_moved(o: EntityRecord, r: EntityRecord) -> bool {
    &&& r == (EntityRecord { local: r.local, ..o })
    &&& r.local == (crate::transform::Transform { position: r.local.position, ..o.local })
    &&& r.local.position.x == o.local.position.x + (o.velocity->0).0.x
    &&& r.local.position.y == o.local.position.y + (o.velocity->0).0.y
}

/// What one resolution pass does, given the broad-phase enumeration each
/// mover's query returned (`idss[k]`, some duplicate-free enumeration of the
/// query result set for mover `k`'s original rectangle): colliding movers
/// settle to the sequential resolution fold, plain movers advance by their
/// velocity, and every other record is untouched.
pub open spec fn pass_resolution(
    olds: Seq<EntityRecord>,
    news: Seq<EntityRecord>,
    hash: SpatialHash,
    idss: Seq<Seq<u64>>,
) -> bool {
    let n = olds.len() as int;
    let ml = mover_idx_list(olds, n);
    let rect0s = Seq::new(ml.len(), |k: int| collider_rect_of(olds[ml[k]]));
    let vels = Seq::new(ml.len(), |k: int| vel_of(olds[ml[k]]));
    let sp = Seq::new(ml.len(), |k: int| static_rects_of(olds, idss[k], idss[k].len() as int));
    let finals = pass_state(rect0s, vels, sp, ml.len() as int);
    &&& news.len() == olds.len()
    &&& idss.len() == ml.len()
    &&& forall|k: int|
        0 <= k < ml.len() ==> (#[trigger] idss[k]).no_duplicates() && idss[k].to_set()
            == query_model(hash.rects(), hash.cs(), rect0s[k])
    &&& forall|k: int|
        0 <= k < ml.len() ==> moved_by(olds[ml[k]], #[trigger] news[ml[k]], rect0s[k], finals[k])
    &&& forall|j: int|
        0 <= j < n && is_plain_mover(#[trigger] olds[j]) ==> plain_moved(olds[j], news[j])
    &&& forall|j: int|
        0 <= j < n && !is_colliding_mover(#[trigger] olds[j]) && !is_plain_mover(olds[j])
            ==> news[j] == olds[j]
}

/// The drift bound after `k` resolved movers stays within machine range and
/// grows monotonically.
proof fn lemma_drift_bound(k: int)
    requires
        0 <= k,
        k <= 100_000_000,
    ensures
        RECT_BOUND + k * (VEL_LIMIT + 2 * EXTENT_BOUND) <= MOVER_BOUND,
        RECT_BOUND <= RECT_BOUND + k * (VEL_LIMIT + 2 * EXTENT_BOUND),
        k * (VEL_LIMIT + 2 * EXTENT_BOUND) <= (k + 1) * (VEL_LIMIT + 2 * EXTENT_BOUND),
        (k + 1) * (VEL_LIMIT + 2 * EXTENT_BOUND) == k * (VEL_LIMIT + 2 * EXTENT_BOUND) + (VEL_LIMIT
            + 2 * EXTENT_BOUND),
{
    assert(VEL_LIMIT + 2 * EXTENT_BOUND == 3_000_000_000int);
    assert(0 <= k * 3_000_000_000int <= 100_000_000int * 3_000_000_000int && k * 3_000_000_000int
        <= (k + 1) * 3_000_000_000int && (k + 1) * 3_000_000_000int == k * 3_000_000_000int
        + 3_000_000_000int) by (nonlinear_arith)
        requires
            0 <= k <= 100_000_000int,
    {}
    assert(k * (VEL_LIMIT + 2 * EXTENT_BOUND) == k * 3_000_000_000int);
    assert((k + 1) * (VEL_LIMIT + 2 * EXTENT_BOUND) == (k + 1) * 3_000_000_000int);
}

/// Per-record well-formedness the resolver relies on.
pub open spec fn resolver_rec_wf(r: EntityRecord) -> bool {
    &&& (r.collider matches Some(c) ==> c.wf())
    &&& (r.world matches Some(g) ==> g.wf())
    &&& (r.velocity matches Some(v) ==> v.wf())
    &&& r.local.wf()
}

/// Correct positions for one tick so that moving entities do not end up
/// inside static or fellow colliders, and stationary overlapping colliders
/// separate. Movers are resolved one at a time, in arena order, against the
/// static candidates their broad-phase query returns and against every other
/// mover's current rectangle; each resolved delta is written back to both
/// the world and the local position. A mover without a collider just has its
/// velocity applied. The full behaviour is `pass_resolution`, quantified
/// over the enumeration orders the broad-phase queries returned.
#[verifier::rlimit(100)]
pub fn apply_velocity_system(recs: &mut Vec<EntityRecord>, hash: &SpatialHash)
    requires
        hash.wf(),
        old(recs)@.len() <= ENTITY_LIMIT,
        forall|j: int| 0 <= j < old(recs)@.len() ==> resolver_rec_wf(#[trigger] old(recs)@[j]),
    ensures
        final(recs)@.len() == old(recs)@.len(),
        exists|idss: Seq<Seq<u64>>| pass_resolution(old(recs)@, final(recs)@, *hash, idss),
{
    broadcast use vstd::seq_lib::lemma_seq_contains_after_push;

    let ghost olds = old(recs)@;
    let n = recs.len();
    proof {
        lemma_mover_idx_list_props(olds, n as int);
    }
    let ghost mlfull = mover_idx_list(olds, n as int);

    // Gather the colliding movers; colliderless movers advance immediately.
    let mut movers: Vec<(usize, Rect, Vec2)> = Vec::new();
    let mut i: usize = 0;
    while i < n
        invariant
            olds == old(recs)@,
            n == olds.len(),
            recs@.len() == n,
            i <= n,
            forall|j: int| 0 <= j < n ==> resolver_rec_wf(#[trigger] olds[j]),
            forall|j: int|
                0 <= j < n && (j >= i || !is_plain_mover(olds[j])) ==> #[trigger] recs@[j]
                    == olds[j],
            forall|j: int|
                0 <= j < i && is_plain_mover(#[trigger] olds[j]) ==> plain_moved(olds[j], recs@[j]),
            movers@.len() == mover_idx_list(olds, i as int).len(),
            forall|t: int|
                0 <= t < movers@.len() ==> {
                    let ml = mover_idx_list(olds, i as int);
                    &&& (#[trigger] movers@[t]).0 as int == ml[t]
                    &&& movers@[t].1.m() == collider_rect_of(olds[ml[t]])
                    &&& rect_wf(movers@[t].1.m())
                    &&& movers@[t].2 == (olds[ml[t]].velocity->0).0
                },
        decreases n - i,
    {
        let ghost mlpre = mover_idx_list(olds, i as int);
        if recs[i].velocity.is_some() {
            if recs[i].collider.is_some() {
                if recs[i].world.is_some() {
                    let c = match recs[i].collider {
                        Some(c) => c,
                        None => {
                            proof {
                                assert(false);
                            }
                            Collider::default()
                        },
                    };
                    let g = match recs[i].world {
                        Some(g) => g,
                        None => {
                            proof {
                                assert(false);
                            }
                            GlobalTransform::from_root(&crate::transform::Transform::default())
                        },
                    };
                    let v = match recs[i].velocity {
                        Some(v) => v,
                        None => {
                            proof {
                                assert(false);
                            }
                            crate::components::Velocity::default()
                        },
                    };
                    let rect = collider_world_rect(&c, &g);
                    movers.push((i, rect, v.0));
                    proof {
                        assert(is_colliding_mover(olds[i as int]));
                        assert(mover_idx_list(olds, i + 1) == mlpre.push(i as int));
                    }
                } else {
                    proof {
                        assert(!is_colliding_mover(olds[i as int]));
                        assert(mover_idx_list(olds, i + 1) == mlpre);
                    }
                }
            } else {
                proof {
                    assert(!is_colliding_mover(olds[i as int]));
                    assert(mover_idx_list(olds, i + 1) == mlpre);
                }
                if recs[i].world.is_some() {
                    let v = match recs[i].velocity {
                        Some(v) => v,
                        None => {
                            proof {
                                assert(false);
                            }
                            crate::components::Velocity::default()
                        },
                    };
                    let oldloc = recs[i].local;
                    recs[i].local = crate::transform::Transform {
                        position: Vec2 { x: oldloc.position.x + v.0.x, y: oldloc.position.y + v.0.y },
                        rotation: oldloc.rotation,
                        scale: oldloc.scale,
                    };
                    proof {
                        assert(plain_moved(olds[i as int], recs@[i as int]));
                    }
                }
            }
        } else {
            proof {
                assert(!is_colliding_mover(olds[i as int]));
                assert(mover_idx_list(olds, i + 1) == mlpre);
            }
        }
        i = i + 1;
    }

    // Resolve each mover in order, then settle its record.
    let ghost rect0s = Seq::new(mlfull.len(), |kk: int| collider_rect_of(olds[mlfull[kk]]));
    let ghost vels = Seq::new(mlfull.len(), |kk: int| vel_of(olds[mlfull[kk]]));
    let ghost mut idss: Seq<Seq<u64>> = Seq::empty();
    let ghost mut sp: Seq<Seq<RectM>> = Seq::empty();
    let nm = movers.len();
    proof {
        assert(nm == mlfull.len());
        assert(mlfull.len() <= n);
        assert forall|t: int| 0 <= t < nm implies rect_wf(#[trigger] rect0s[t]) by {
            assert(movers@[t].1.m() == collider_rect_of(olds[mlfull[t]]));
            assert(rect_wf(movers@[t].1.m()));
        }
        assert forall|t: int|
            0 <= t < nm implies (#[trigger] movers@[t]).2.x as int == vels[t].0
            && movers@[t].2.y as int == vels[t].1 && -VEL_LIMIT <= movers@[t].2.x <= VEL_LIMIT
            && -VEL_LIMIT <= movers@[t].2.y <= VEL_LIMIT by {
            assert(movers@[t].2 == (olds[mlfull[t]].velocity->0).0);
            assert(resolver_rec_wf(olds[mlfull[t]]));
        }
    }
    let mut k: usize = 0;
    while k < nm
        invariant
            olds == old(recs)@,
            n == olds.len(),
            recs@.len() == n,
            n <= ENTITY_LIMIT,
            hash.wf(),
            forall|j: int| 0 <= j < n ==> resolver_rec_wf(#[trigger] olds[j]),
            mlfull == mover_idx_list(olds, n as int),
            forall|t: int|
                0 <= t < mlfull.len() ==> 0 <= #[trigger] mlfull[t] < n && is_colliding_mover(
                    olds[mlfull[t]],
                ),
            forall|t1: int, t2: int| 0 <= t1 < t2 < mlfull.len() ==> mlfull[t1] < mlfull[t2],
            rect0s == Seq::new(mlfull.len(), |kk: int| collider_rect_of(olds[mlfull[kk]])),
            vels == Seq::new(mlfull.len(), |kk: int| vel_of(olds[mlfull[kk]])),
            nm == mlfull.len(),
            nm <= n,
            movers@.len() == nm,
            k <= nm,
            idss.len() == k as int,
            sp.len() == k as int,
            forall|t: int|
                0 <= t < k ==> (#[trigger] idss[t]).no_duplicates() && idss[t].to_set()
                    == query_model(hash.rects(), hash.cs(), rect0s[t]),
            forall|t: int|
                0 <= t < k ==> #[trigger] sp[t] == static_rects_of(
                    olds,
                    idss[t],
                    idss[t].len() as int,
                ),
            forall|t: int| 0 <= t < nm ==> (#[trigger] movers@[t]).0 as int == mlfull[t],
            forall|t: int|
                0 <= t < nm ==> (#[trigger] movers@[t]).2.x as int == vels[t].0
                    && movers@[t].2.y as int == vels[t].1 && -VEL_LIMIT <= movers@[t].2.x
                    <= VEL_LIMIT && -VEL_LIMIT <= movers@[t].2.y <= VEL_LIMIT,
            forall|t: int| 0 <= t < nm ==> rect_wf(#[trigger] rect0s[t]),
            forall|t: int|
                0 <= t < nm ==> (#[trigger] movers@[t]).1.m() == pass_state(
                    rect0s,
                    vels,
                    sp,
                    k as int,
                )[t],
            forall|t: int|
                0 <= t < nm ==> (#[trigger] movers@[t]).1.width as int == rect0s[t].width
                    && movers@[t].1.height as int == rect0s[t].height,
            forall|t: int|
                0 <= t < nm ==> crate::geom::rect_coords(
                    (#[trigger] movers@[t]).1.m(),
                    RECT_BOUND + (k as int) * (VEL_LIMIT + 2 * EXTENT_BOUND),
                ) && crate::geom::rect_sized(movers@[t].1.m()),
            forall|j: int|
                0 <= j < n && !is_plain_mover(olds[j]) && !is_colliding_mover(olds[j])
                    ==> #[trigger] recs@[j] == olds[j],
            forall|j: int|
                0 <= j < n && is_plain_mover(#[trigger] olds[j]) ==> plain_moved(olds[j], recs@[j]),
            forall|j: int| 0 <= j < n ==> (#[trigger] recs@[j]).velocity == olds[j].velocity,
            forall|j: int|
                0 <= j < n && olds[j].velocity is None ==> (#[trigger] recs@[j]).collider
                    == olds[j].collider && recs@[j].world == olds[j].world,
            forall|t: int|
                0 <= t < k ==> moved_by(
                    olds[mlfull[t]],
                    #[trigger] recs@[mlfull[t]],
                    rect0s[t],
                    pass_state(rect0s, vels, sp, k as int)[t],
                ),
            forall|t: int| k <= t < nm ==> #[trigger] recs@[mlfull[t]] == olds[mlfull[t]],
        decreases nm - k,
    {
        proof {
            lemma_pass_state_frame(rect0s, vels, sp, k as int);
        }
        let idx = movers[k].0;
        let rect = movers[k].1;
        let vel = movers[k].2;
        proof {
            assert(rect.m() == rect0s[k as int]);
            assert(rect_wf(rect.m()));
        }
        let ids = hash.query(rect);
        // Static candidates from the broad phase, in result order.
        let mut statics: Vec<Rect> = Vec::new();
        let mut q: usize = 0;
        while q < ids.len()
            invariant
                olds == old(recs)@,
                n == olds.len(),
                recs@.len() == n,
                q <= ids@.len(),
                forall|j: int| 0 <= j < n ==> resolver_rec_wf(#[trigger] olds[j]),
                forall|j: int| 0 <= j < n ==> (#[trigger] recs@[j]).velocity == olds[j].velocity,
                forall|j: int|
                    0 <= j < n && olds[j].velocity is None ==> (#[trigger] recs@[j]).collider
                        == olds[j].collider && recs@[j].world == olds[j].world,
                crate::collision::rects_m(statics@) == static_rects_of(olds, ids@, q as int),
                forall|u: int| 0 <= u < statics@.len() ==> rect_wf((#[trigger] statics@[u]).m()),
            decreases ids@.len() - q,
        {
            let e = ids[q];
            let ghost pre_statics = statics@;
            if e < (n as u64) {
                let j = e as usize;
                if recs[j].velocity.is_none() && recs[j].collider.is_some()
                    && recs[j].world.is_some() {
                    let c = match recs[j].collider {
                        Some(c) => c,
                        None => {
                            proof {
                                assert(false);
                            }
                            Collider::default()
                        },
                    };
                    let g = match recs[j].world {
                        Some(g) => g,
                        None => {
                            proof {
                                assert(false);
                            }
                            GlobalTransform::from_root(&crate::transform::Transform::default())
                        },
                    };
                    let sr = collider_world_rect(&c, &g);
                    statics.push(sr);
                    proof {
                        assert(is_static_obstacle(olds[j as int]));
                        assert(sr.m() == collider_rect_of(olds[j as int]));
                        assert(crate::collision::rects_m(statics@) =~= crate::collision::rects_m(
                            pre_statics,
                        ).push(sr.m()));
                    }
                } else {
                    proof {
                        assert(!((e as int) < olds.len() && is_static_obstacle(olds[e as int])));
                    }
                }
            }
            q = q + 1;
        }
        proof {
            assert(crate::collision::rects_m(statics@) == static_rects_of(
                olds,
                ids@,
                ids@.len() as int,
            ));
        }
        // Every other mover's current rectangle and velocity, in order.
        let mut others: Vec<(Rect, Vec2)> = Vec::new();
        let mut t: usize = 0;
        while t < nm
            invariant
                t <= nm,
                k < nm,
                movers@.len() == nm,
                others@.len() == (if t <= k {
                    t as int
                } else {
                    t - 1
                }),
                forall|u: int|
                    0 <= u < others@.len() ==> {
                        let src = if u < k {
                            u
                        } else {
                            u + 1
                        };
                        (#[trigger] others@[u]).0 == movers@[src].1 && others@[u].1
                            == movers@[src].2
                    },
            decreases nm - t,
        {
            if t != k {
                others.push((movers[t].1, movers[t].2));
            }
            t = t + 1;
        }
        let ghost state_k = pass_state(rect0s, vels, sp, k as int);
        proof {
            assert(state_k.len() == nm);
            assert(crate::collision::movers_m(others@) =~= others_of(state_k, vels, k as int));
            // all candidates and the mover itself are within this tick's
            // drift bound, which stays inside the machine range
            assert(ENTITY_LIMIT == 100_000_000);
            lemma_drift_bound(k as int);
            assert forall|u: int|
                0 <= u < others@.len() implies crate::geom::rect_coords(
                (#[trigger] others@[u]).0.m(),
                MOVER_BOUND as int,
            ) && crate::geom::rect_sized(others@[u].0.m()) by {
                let src = if u < k {
                    u
                } else {
                    u + 1
                };
                assert(crate::geom::rect_coords(
                    movers@[src].1.m(),
                    RECT_BOUND + (k as int) * (VEL_LIMIT + 2 * EXTENT_BOUND),
                ));
            }
        }
        let newrect = crate::collision::resolve_mover_rect(rect, vel, &statics, &others);
        let ghost sp2 = sp.push(crate::collision::rects_m(statics@));
        let ghost state_k1 = pass_state(rect0s, vels, sp2, k + 1);
        proof {
            lemma_pass_state_congruent(rect0s, vels, sp, sp2, k as int);
            assert(pass_state(rect0s, vels, sp2, k as int) == state_k);
            assert(sp2[k as int] == crate::collision::rects_m(statics@));
            assert(state_k1 == state_k.update(
                k as int,
                crate::collision::resolve_one(
                    state_k[k as int],
                    vels[k as int].0,
                    vels[k as int].1,
                    sp2[k as int],
                    others_of(state_k, vels, k as int),
                ),
            ));
            assert(newrect.m() == state_k1[k as int]);
            assert forall|u: int|
                0 <= u < sp2[k as int].len() implies rect_wf(#[trigger] sp2[k as int][u]) by {
                assert(sp2[k as int][u] == statics@[u].m());
            }
            assert forall|u: int|
                0 <= u < others_of(state_k, vels, k as int).len() implies crate::geom::rect_coords(
                (#[trigger] others_of(state_k, vels, k as int)[u]).0,
                RECT_BOUND + (k as int) * (VEL_LIMIT + 2 * EXTENT_BOUND),
            ) && crate::geom::rect_sized(others_of(state_k, vels, k as int)[u].0) by {
                let src = if u < k {
                    u
                } else {
                    u + 1
                };
                assert(others_of(state_k, vels, k as int)[u].0 == state_k[src]);
                assert(state_k[src] == movers@[src].1.m());
                assert(crate::geom::rect_coords(
                    movers@[src].1.m(),
                    RECT_BOUND + (k as int) * (VEL_LIMIT + 2 * EXTENT_BOUND),
                ));
            }
            assert(crate::geom::rect_coords(
                state_k[k as int],
                RECT_BOUND + (k as int) * (VEL_LIMIT + 2 * EXTENT_BOUND),
            ));
            crate::collision::lemma_resolve_one_bound(
                state_k[k as int],
                vels[k as int].0,
                vels[k as int].1,
                sp2[k as int],
                others_of(state_k, vels, k as int),
                RECT_BOUND + (k as int) * (VEL_LIMIT + 2 * EXTENT_BOUND),
            );
        }
        // Settle the record: both world and local position take the delta.
        let dx = newrect.x - rect.x;
        let dy = newrect.y - rect.y;
        let oldloc = recs[idx].local;
        recs[idx].local = crate::transform::Transform {
            position: Vec2 { x: oldloc.position.x + dx, y: oldloc.position.y + dy },
            rotation: oldloc.rotation,
            scale: oldloc.scale,
        };
        let gw = match recs[idx].world {
            Some(g) => g,
            None => {
                proof {
                    assert(false);
                }
                GlobalTransform::from_root(&crate::transform::Transform::default())
            },
        };
        recs[idx].world = Some(
            GlobalTransform {
                position: Vec2 { x: gw.position.x + dx, y: gw.position.y + dy },
                rotation: gw.rotation,
                scale: gw.scale,
            },
        );
        if dx != 0 || dy != 0 {
            recs[idx].dirty = true;
        }
        movers[k] = (idx, newrect, vel);
        proof {
            idss = idss.push(ids@);
            sp = sp2;
            assert(moved_by(olds[idx as int], recs@[idx as int], rect0s[k as int], state_k1[k as int]));
            assert forall|t2: int|
                0 <= t2 < k + 1 implies moved_by(
                olds[mlfull[t2]],
                #[trigger] recs@[mlfull[t2]],
                rect0s[t2],
                pass_state(rect0s, vels, sp, k + 1)[t2],
            ) by {
                if t2 < k {
                    assert(mlfull[t2] != idx as int);
                    assert(pass_state(rect0s, vels, sp, k + 1)[t2] == state_k[t2]);
                }
            }
            assert forall|t2: int|
                0 <= t2 < nm implies (#[trigger] movers@[t2]).1.m() == pass_state(
                rect0s,
                vels,
                sp,
                k + 1,
            )[t2] by {
                if t2 != k {
                    assert(pass_state(rect0s, vels, sp, k + 1)[t2] == state_k[t2]);
                }
            }
            assert forall|t2: int|
                0 <= t2 < nm implies crate::geom::rect_coords(
                (#[trigger] movers@[t2]).1.m(),
                RECT_BOUND + (k + 1) * (VEL_LIMIT + 2 * EXTENT_BOUND),
            ) && crate::geom::rect_sized(movers@[t2].1.m()) by {
                lemma_drift_bound(k as int);
                if t2 != k {
                    assert(crate::geom::rect_coords(
                        movers@[t2].1.m(),
                        RECT_BOUND + (k as int) * (VEL_LIMIT + 2 * EXTENT_BOUND),
                    ));
                }
            }
        }
        k = k + 1;
    }
    proof {
        let spfin = Seq::new(
            mlfull.len(),
            |kk: int| static_rects_of(olds, idss[kk], idss[kk].len() as int),
        );
        assert(spfin =~= sp);
        assert(pass_resolution(olds, recs@, *hash, idss));
    }
}

/// How many of the first `n` records satisfy `f`.
pub open spec fn count_if(s: Seq<EntityRecord>, n: int, f: spec_fn(EntityRecord) -> bool) -> int
    decreases n,
{
    if n <= 0 {
        0
    } else {
        count_if(s, n - 1, f) + if f(s[n - 1]) {
            1int
        } else {
            0int
        }
    }
}

/// How many entities are currently marked on-screen and carry a sprite;
/// drives the on-screen counter overlay.
pub fn on_screen_sprite_count(recs: &Vec<EntityRecord>) -> (n: usize)
    ensures
        n == count_if(recs@, recs@.len() as int, |r: EntityRecord| r.on_screen && r.sprite is Some),
{
    let ghost f = |r: EntityRecord| r.on_screen && r.sprite is Some;
    let mut count: usize = 0;
    let mut i: usize = 0;
    while i < recs.len()
        invariant
            i <= recs@.len(),
            count <= i,
            count == count_if(recs@, i as int, f),
            f == (|r: EntityRecord| r.on_screen && r.sprite is Some),
        decreases recs@.len() - i,
    {
        if recs[i].on_screen && recs[i].sprite.is_some() {
            count = count + 1;
        }
        i = i + 1;
    }
    count
}

/// How many entities carry a sprite and are not the player; drives the
/// entity-count overlay.
pub fn sprite_count_excluding_player(recs: &Vec<EntityRecord>) -> (n: usize)
    ensures
        n == count_if(recs@, recs@.len() as int, |r: EntityRecord| r.sprite is Some && !r.player),
{
    let ghost f = |r: EntityRecord| r.sprite is Some && !r.player;
    let mut count: usize = 0;
    let mut i: usize = 0;
    while i < recs.len()
        invariant
            i <= recs@.len(),
            count <= i,
            count == count_if(recs@, i as int, f),
            f == (|r: EntityRecord| r.sprite is Some && !r.player),
        decreases recs@.len() - i,
    {
        if recs[i].sprite.is_some() && !recs[i].player {
            count = count + 1;
        }
        i = i + 1;
    }
    count
}

/// The movement direction the player asked for, one unit per pressed axis;
/// opposite keys cancel. Scaling by speed and elapsed time is the caller's
/// business.
pub fn player_move_direction(left: bool, right: bool, up: bool, down: bool) -> (d: Vec2)
    ensures
        d.x == (if right {
            1int
        } else {
            0int
        }) - (if left {
            1int
        } else {
            0int
        }),
        d.y == (if down {
            1int
        } else {
            0int
        }) - (if up {
            1int
        } else {
            0int
        }),
{
    let mut d = Vec2 { x: 0, y: 0 };
    if left {
        d.x = d.x - 1;
    }
    if right {
        d.x = d.x + 1;
    }
    if up {
        d.y = d.y - 1;
    }
    if down {
        d.y = d.y + 1;
    }
    d
}

} // verus!
