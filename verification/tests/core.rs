use sim2d::camera::{camera_view_rect, move_camera_to_target_system, update_camera_offset, Camera};
use sim2d::components::{Collider, ColliderKind, Sprite, SpriteKind, SpriteOrigin, Velocity};
use sim2d::entity::EntityRecord;
use sim2d::geom::{Rect, Vec2};
use sim2d::hierarchy::{ensure_global_transform_system, update_global_transforms_system};
use sim2d::sim::{
    apply_velocity_system, collider_world_rect, on_screen_sprite_count, player_move_direction,
    sprite_count_excluding_player, sprite_world_rect, sync_collider_with_sprite_system,
    update_on_screen_system, update_spatial_hash_system,
};
use sim2d::spatial_hash::SpatialHash;
use sim2d::transform::{wrap_rotation, GlobalTransform, Transform};

fn rect(x: i64, y: i64, width: i64, height: i64) -> Rect {
    Rect { x, y, width, height }
}

fn v2(x: i64, y: i64) -> Vec2 {
    Vec2 { x, y }
}

fn record() -> EntityRecord {
    EntityRecord {
        local: Transform::default(),
        world: None,
        parent: None,
        children: Vec::new(),
        sprite: None,
        collider: None,
        velocity: None,
        on_screen: false,
        player: false,
        dirty: false,
    }
}

fn world_at(x: i64, y: i64) -> Option<GlobalTransform> {
    Some(GlobalTransform { position: v2(x, y), rotation: 0, scale: v2(1, 1) })
}

fn collider32() -> Option<Collider> {
    Some(Collider { kind: ColliderKind::Rectangle(v2(32, 32)), offset: v2(0, 0) })
}

#[test]
fn test_spatial_hash() {
    let mut spatial_hash = SpatialHash::new(10);
    assert_eq!(spatial_hash.cell_coords(5, 5), (0, 0));
    assert_eq!(spatial_hash.cell_coords(15, 5), (1, 0));
    assert_eq!(spatial_hash.cell_coords(-5, -5), (-1, -1));

    let entity: u64 = 0;

    spatial_hash.insert(entity, rect(0, 0, 10, 10));

    let e = spatial_hash.query(rect(5, 5, 1, 1));
    assert_eq!(e.len(), 1);

    spatial_hash.update(entity, rect(10, 10, 10, 10));

    let e = spatial_hash.query(rect(5, 5, 1, 1));
    assert_eq!(e.len(), 0);
}

#[test]
fn query_after_insert_contains_entity() {
    let mut h = SpatialHash::new(96);
    h.insert(7, rect(100, 100, 50, 50));
    let found = h.query(rect(100, 100, 50, 50));
    assert_eq!(found, vec![7]);
}

#[test]
fn disjoint_update_moves_entity_between_areas() {
    let mut h = SpatialHash::new(10);
    h.insert(3, rect(0, 0, 5, 5));
    h.update(3, rect(1000, 1000, 5, 5));
    assert!(h.query(rect(0, 0, 5, 5)).is_empty());
    assert_eq!(h.query(rect(1000, 1000, 5, 5)), vec![3]);
}

#[test]
fn repeated_update_is_idempotent() {
    let mut h1 = SpatialHash::new(10);
    h1.insert(1, rect(0, 0, 25, 25));
    h1.insert(2, rect(40, 40, 5, 5));
    h1.update(1, rect(3, 3, 25, 25));
    let mut h2 = SpatialHash::new(10);
    h2.insert(1, rect(0, 0, 25, 25));
    h2.insert(2, rect(40, 40, 5, 5));
    h2.update(1, rect(3, 3, 25, 25));
    h2.update(1, rect(3, 3, 25, 25));
    // the same queries see the same membership after one or two updates
    for probe in [rect(0, 0, 30, 30), rect(40, 40, 5, 5), rect(-20, -20, 100, 100)] {
        let mut a = h1.query(probe);
        let mut b = h2.query(probe);
        a.sort_unstable();
        b.sort_unstable();
        assert_eq!(a, b);
    }
}

#[test]
fn query_never_returns_duplicates() {
    let mut h = SpatialHash::new(10);
    // spans 3 x 3 cells
    h.insert(9, rect(0, 0, 25, 25));
    let found = h.query(rect(-5, -5, 50, 50));
    assert_eq!(found, vec![9]);
}

#[test]
fn cell_coords_rect_covers_boundary_cells() {
    let h = SpatialHash::new(10);
    // the far edge touches the next cell on each axis
    let cells = h.cell_coords_rect(rect(0, 0, 10, 10));
    assert_eq!(cells.len(), 4);
    assert!(cells.contains(&(0, 0)));
    assert!(cells.contains(&(1, 0)));
    assert!(cells.contains(&(0, 1)));
    assert!(cells.contains(&(1, 1)));
}

#[test]
fn degenerate_rect_occupies_one_cell() {
    let h = SpatialHash::new(10);
    let cells = h.cell_coords_rect(rect(5, 5, 0, 0));
    assert_eq!(cells, vec![(0, 0)]);
}

#[test]
fn three_level_chain_adds_positions() {
    let mut recs = vec![record(), record(), record()];
    recs[0].local.position = v2(1, 2);
    recs[0].children = vec![1];
    recs[1].local.position = v2(10, 20);
    recs[1].parent = Some(0);
    recs[1].children = vec![2];
    recs[2].local.position = v2(100, 200);
    recs[2].parent = Some(1);
    update_global_transforms_system(&mut recs);
    let b = recs[2].world.unwrap();
    assert_eq!(b.position, v2(111, 222));
    assert_eq!(b.rotation, 0);
    assert_eq!(b.scale, v2(1, 1));
}

#[test]
fn rotation_composition_wraps() {
    let mut recs = vec![record(), record()];
    recs[0].local.rotation = 350;
    recs[0].children = vec![1];
    recs[1].local.rotation = 20;
    recs[1].parent = Some(0);
    update_global_transforms_system(&mut recs);
    assert_eq!(recs[0].world.unwrap().rotation, 350);
    assert_eq!(recs[1].world.unwrap().rotation, 10);
    assert_eq!(wrap_rotation(-90), 270);
    assert_eq!(wrap_rotation(720), 0);
}

#[test]
fn propagation_skips_despawned_children() {
    let mut recs = vec![record()];
    recs[0].children = vec![17]; // despawned: out of range
    update_global_transforms_system(&mut recs);
    assert!(recs[0].world.is_some());
}

#[test]
fn propagation_sets_dirty_only_on_change() {
    let mut recs = vec![record()];
    recs[0].local.position = v2(4, 5);
    update_global_transforms_system(&mut recs);
    assert!(recs[0].dirty);
    recs[0].dirty = false; // as if the index pass consumed the flag
    update_global_transforms_system(&mut recs);
    assert!(!recs[0].dirty);
    recs[0].local.position = v2(6, 5);
    update_global_transforms_system(&mut recs);
    assert!(recs[0].dirty);
}

#[test]
fn ensure_assigns_missing_world_transforms() {
    let mut recs = vec![record(), record()];
    recs[0].local.position = v2(8, 9);
    recs[1].world = world_at(1, 1);
    ensure_global_transform_system(&mut recs);
    assert_eq!(recs[0].world.unwrap().position, v2(8, 9));
    assert!(recs[0].dirty);
    assert_eq!(recs[1].world.unwrap().position, v2(1, 1));
    assert!(!recs[1].dirty);
}

#[test]
fn mover_stops_flush_against_wall() {
    // a 32 x 32 mover at (50, 50) moving at (10, 0) toward a static
    // 32 x 32 collider at (70, 50): after one tick its right edge meets the
    // static's left edge, so its x is 70 - 32 = 38, not 60
    let mut recs = vec![record(), record()];
    recs[0].world = world_at(50, 50);
    recs[0].collider = collider32();
    recs[0].velocity = Some(Velocity(v2(10, 0)));
    recs[0].local.position = v2(50, 50);
    recs[1].world = world_at(70, 50);
    recs[1].collider = collider32();
    let mut hash = SpatialHash::new(96);
    hash.insert(1, rect(70, 50, 32, 32));
    apply_velocity_system(&mut recs, &hash);
    assert_eq!(recs[0].world.unwrap().position, v2(38, 50));
    assert_eq!(recs[0].local.position, v2(38, 50));
    // the static never moves
    assert_eq!(recs[1].world.unwrap().position, v2(70, 50));
}

#[test]
fn free_mover_advances_by_velocity() {
    let mut recs = vec![record()];
    recs[0].world = world_at(5, 5);
    recs[0].collider = collider32();
    recs[0].velocity = Some(Velocity(v2(10, -3)));
    recs[0].local.position = v2(5, 5);
    let hash = SpatialHash::new(96);
    apply_velocity_system(&mut recs, &hash);
    assert_eq!(recs[0].world.unwrap().position, v2(15, 2));
}

#[test]
fn colliderless_mover_moves_without_checks() {
    let mut recs = vec![record()];
    recs[0].world = world_at(0, 0);
    recs[0].velocity = Some(Velocity(v2(7, 8)));
    recs[0].local.position = v2(1, 1);
    let hash = SpatialHash::new(96);
    apply_velocity_system(&mut recs, &hash);
    assert_eq!(recs[0].local.position, v2(8, 9));
}

#[test]
fn stationary_overlap_separates_by_least_penetration() {
    // two stationary 32 x 32 movers overlapping by 22 along x: the first is
    // pushed fully out along x, away from the second's centre
    let mut recs = vec![record(), record()];
    recs[0].world = world_at(50, 50);
    recs[0].collider = collider32();
    recs[0].velocity = Some(Velocity(v2(0, 0)));
    recs[0].local.position = v2(50, 50);
    recs[1].world = world_at(60, 50);
    recs[1].collider = collider32();
    recs[1].velocity = Some(Velocity(v2(0, 0)));
    recs[1].local.position = v2(60, 50);
    let hash = SpatialHash::new(96);
    apply_velocity_system(&mut recs, &hash);
    // total separation equals the overlap amount: 22
    assert_eq!(recs[0].world.unwrap().position, v2(28, 50));
    assert_eq!(recs[1].world.unwrap().position, v2(60, 50));
}

#[test]
fn mover_stops_against_wall_from_either_side() {
    // moving left: stop flush against the static's right edge
    let mut recs = vec![record(), record()];
    recs[0].world = world_at(110, 50);
    recs[0].collider = collider32();
    recs[0].velocity = Some(Velocity(v2(-15, 0)));
    recs[0].local.position = v2(110, 50);
    recs[1].world = world_at(70, 50);
    recs[1].collider = collider32();
    let mut hash = SpatialHash::new(96);
    hash.insert(1, rect(70, 50, 32, 32));
    apply_velocity_system(&mut recs, &hash);
    assert_eq!(recs[0].world.unwrap().position, v2(102, 50));

    // moving down: stop flush above the floor
    let mut recs = vec![record(), record()];
    recs[0].world = world_at(50, 10);
    recs[0].collider = collider32();
    recs[0].velocity = Some(Velocity(v2(0, 20)));
    recs[0].local.position = v2(50, 10);
    recs[1].world = world_at(50, 50);
    recs[1].collider = collider32();
    let mut hash = SpatialHash::new(96);
    hash.insert(1, rect(50, 50, 32, 32));
    apply_velocity_system(&mut recs, &hash);
    assert_eq!(recs[0].world.unwrap().position, v2(50, 18));
}

#[test]
fn moving_mover_clamps_against_fellow_mover() {
    // the second mover holds still this tick but counts as a mover; the
    // first clamps against its current rectangle
    let mut recs = vec![record(), record()];
    recs[0].world = world_at(50, 50);
    recs[0].collider = collider32();
    recs[0].velocity = Some(Velocity(v2(10, 0)));
    recs[0].local.position = v2(50, 50);
    recs[1].world = world_at(90, 50);
    recs[1].collider = collider32();
    recs[1].velocity = Some(Velocity(v2(0, 0)));
    recs[1].local.position = v2(90, 50);
    let hash = SpatialHash::new(96);
    apply_velocity_system(&mut recs, &hash);
    assert_eq!(recs[0].world.unwrap().position, v2(58, 50));
    assert_eq!(recs[1].world.unwrap().position, v2(90, 50));
}

#[test]
fn stationary_mover_ignores_moving_neighbour() {
    // an overlapping neighbour with velocity is handled by its own step, so
    // the stationary mover does not push out of it
    let mut recs = vec![record(), record()];
    recs[0].world = world_at(50, 50);
    recs[0].collider = collider32();
    recs[0].velocity = Some(Velocity(v2(0, 0)));
    recs[0].local.position = v2(50, 50);
    recs[1].world = world_at(60, 50);
    recs[1].collider = collider32();
    recs[1].velocity = Some(Velocity(v2(5, 0)));
    recs[1].local.position = v2(60, 50);
    let hash = SpatialHash::new(96);
    apply_velocity_system(&mut recs, &hash);
    assert_eq!(recs[0].world.unwrap().position, v2(50, 50));
    // the moving neighbour's own step then clamps it against the first
    assert_eq!(recs[1].world.unwrap().position, v2(18, 50));
}

#[test]
fn update_registers_unknown_entity() {
    let mut h = SpatialHash::new(10);
    h.update(5, rect(0, 0, 5, 5));
    assert_eq!(h.query(rect(0, 0, 5, 5)), vec![5]);
}

#[test]
fn culling_marks_exactly_the_query_result() {
    let mut recs = vec![record(), record(), record()];
    recs[2].on_screen = true; // previously marked, now far away
    let mut hash = SpatialHash::new(96);
    hash.insert(0, rect(0, 0, 32, 32)); // inside the view
    hash.insert(1, rect(5000, 5000, 32, 32)); // far outside
    hash.insert(2, rect(9000, 9000, 32, 32)); // far outside, was marked
    let camera = Camera { target: v2(0, 0), offset: v2(512, 384), zoom_milli: 1000 };
    update_on_screen_system(&mut recs, &hash, &camera, v2(1024, 768));
    assert!(recs[0].on_screen);
    assert!(!recs[1].on_screen);
    assert!(!recs[2].on_screen);
}

#[test]
fn camera_view_rect_is_target_pm_viewport_over_zoom() {
    let camera = Camera { target: v2(100, 200), offset: v2(0, 0), zoom_milli: 2000 };
    let view = camera_view_rect(&camera, v2(1024, 768));
    // half extents: 1024 * 1000 / 2000 = 512, 768 * 1000 / 2000 = 384
    assert_eq!(view, rect(100 - 512, 200 - 384, 1024, 768));
}

#[test]
fn camera_zoom_clamps() {
    let mut camera = Camera::default();
    move_camera_to_target_system(&mut camera, v2(10, 20), 9000);
    assert_eq!(camera.target, v2(10, 20));
    assert_eq!(camera.zoom_milli, 5000);
    move_camera_to_target_system(&mut camera, v2(10, 20), -9000);
    assert_eq!(camera.zoom_milli, 300);
    move_camera_to_target_system(&mut camera, v2(1, 2), 0);
    assert_eq!(camera.zoom_milli, 300);
    update_camera_offset(&mut camera, 1024, 768);
    assert_eq!(camera.offset, v2(512, 384));
}

#[test]
fn collider_offset_follows_sprite_origin() {
    let mut recs = vec![record()];
    recs[0].world = world_at(0, 0);
    recs[0].collider = collider32();
    recs[0].sprite = Some(Sprite::default()); // bottom origin: (500, 1000)
    sync_collider_with_sprite_system(&mut recs);
    assert_eq!(recs[0].collider.unwrap().offset, v2(16, 32));
}

#[test]
fn sprite_rect_anchors_at_origin() {
    let sprite = Sprite {
        kind: SpriteKind::Rectangle { size: v2(32, 32), lines: false },
        origin: SpriteOrigin::TopLeft,
    };
    let g = GlobalTransform { position: v2(100, 100), rotation: 0, scale: v2(2, 2) };
    let r = sprite_world_rect(&sprite, &g).unwrap();
    assert_eq!(r, rect(100, 100, 64, 64));
    let middle = Sprite { origin: SpriteOrigin::Middle, ..sprite };
    assert_eq!(sprite_world_rect(&middle, &g).unwrap(), rect(68, 68, 64, 64));
}

#[test]
fn textured_sprites_are_not_indexed() {
    let sprite = Sprite {
        kind: SpriteKind::Texture { size: v2(64, 64) },
        origin: SpriteOrigin::TopLeft,
    };
    let g = GlobalTransform { position: v2(0, 0), rotation: 0, scale: v2(1, 1) };
    assert!(sprite_world_rect(&sprite, &g).is_none());
}

#[test]
fn collider_rect_subtracts_offset() {
    let c = Collider { kind: ColliderKind::Rectangle(v2(32, 48)), offset: v2(16, 48) };
    let g = GlobalTransform { position: v2(100, 100), rotation: 0, scale: v2(1, 1) };
    assert_eq!(collider_world_rect(&c, &g), rect(84, 52, 32, 48));
}

#[test]
fn index_pass_registers_dirty_sprites() {
    let mut recs = vec![record()];
    recs[0].world = world_at(50, 50);
    recs[0].sprite = Some(Sprite {
        kind: SpriteKind::Rectangle { size: v2(10, 10), lines: false },
        origin: SpriteOrigin::TopLeft,
    });
    recs[0].dirty = true;
    let mut hash = SpatialHash::new(96);
    update_spatial_hash_system(&mut recs, &mut hash);
    assert!(!recs[0].dirty);
    assert_eq!(hash.query(rect(50, 50, 10, 10)), vec![0]);
    // a clean record is left alone
    let mut hash2 = SpatialHash::new(96);
    let mut recs2 = recs.clone();
    recs2[0].dirty = false;
    update_spatial_hash_system(&mut recs2, &mut hash2);
    assert!(hash2.query(rect(50, 50, 10, 10)).is_empty());
}

#[test]
fn counts_follow_markers() {
    let mut recs = vec![record(), record(), record()];
    recs[0].sprite = Some(Sprite::default());
    recs[0].on_screen = true;
    recs[1].sprite = Some(Sprite::default());
    recs[1].player = true;
    recs[2].on_screen = true;
    assert_eq!(on_screen_sprite_count(&recs), 1);
    assert_eq!(sprite_count_excluding_player(&recs), 1);
}

#[test]
fn player_direction_from_keys() {
    assert_eq!(player_move_direction(false, true, false, false), v2(1, 0));
    assert_eq!(player_move_direction(true, true, true, false), v2(0, -1));
    assert_eq!(player_move_direction(false, false, false, false), v2(0, 0));
    assert_eq!(player_move_direction(true, false, false, true), v2(-1, 1));
}

#[test]
fn default_components_match() {
    let t = Transform::default();
    assert_eq!(t.position, v2(0, 0));
    assert_eq!(t.rotation, 0);
    assert_eq!(t.scale, v2(1, 1));
    let s = Sprite::default();
    assert_eq!(s.kind, SpriteKind::Rectangle { size: v2(32, 32), lines: false });
    assert_eq!(s.origin, SpriteOrigin::Bottom);
    let c = Collider::default();
    assert_eq!(c.kind, ColliderKind::Rectangle(v2(32, 32)));
    assert_eq!(c.offset, v2(0, 0));
    assert_eq!(Velocity::default().0, v2(0, 0));
}

#[test]
fn origin_vector_per_mille() {
    let mut s = Sprite::default();
    s.origin = SpriteOrigin::TopLeft;
    assert_eq!(s.get_origin_vector(), v2(0, 0));
    s.origin = SpriteOrigin::Middle;
    assert_eq!(s.get_origin_vector(), v2(500, 500));
    s.origin = SpriteOrigin::BottomRight;
    assert_eq!(s.get_origin_vector(), v2(1000, 1000));
    s.origin = SpriteOrigin::Custom(v2(250, 750));
    assert_eq!(s.get_origin_vector(), v2(250, 750));
}

#[test]
fn overlap_is_strict() {
    let a = rect(0, 0, 10, 10);
    let touching = rect(10, 0, 10, 10);
    let overlapping = rect(9, 0, 10, 10);
    assert!(!a.collides_rect(&touching));
    assert!(a.collides_rect(&overlapping));
}

#[test]
fn end_to_end_tick() {
    // spawn a mover heading for a wall, run a whole tick: propagate, resolve,
    // re-index, cull
    let mut recs = vec![record(), record()];
    recs[0].local.position = v2(50, 50);
    recs[0].collider = collider32();
    recs[0].velocity = Some(Velocity(v2(10, 0)));
    recs[0].sprite = Some(Sprite {
        kind: SpriteKind::Rectangle { size: v2(32, 32), lines: false },
        origin: SpriteOrigin::TopLeft,
    });
    recs[1].local.position = v2(70, 50);
    recs[1].collider = collider32();
    recs[1].sprite = Some(Sprite {
        kind: SpriteKind::Rectangle { size: v2(32, 32), lines: false },
        origin: SpriteOrigin::TopLeft,
    });
    let mut hash = SpatialHash::new(96);
    let camera = Camera { target: v2(0, 0), offset: v2(512, 384), zoom_milli: 1000 };

    ensure_global_transform_system(&mut recs);
    update_global_transforms_system(&mut recs);
    update_spatial_hash_system(&mut recs, &mut hash);
    apply_velocity_system(&mut recs, &hash);
    update_global_transforms_system(&mut recs);
    update_spatial_hash_system(&mut recs, &mut hash);
    update_on_screen_system(&mut recs, &hash, &camera, v2(1024, 768));

    assert_eq!(recs[0].world.unwrap().position, v2(38, 50));
    assert_eq!(recs[1].world.unwrap().position, v2(70, 50));
    assert!(recs[0].on_screen);
    assert!(recs[1].on_screen);
}
