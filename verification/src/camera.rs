//! The active camera's state and the world-space rectangle it can see,
//! which drives visibility culling.

use vstd::prelude::*;
use crate::geom::{div_floor, rect_wf, Rect, RectM, Vec2};
use crate::transform::WORLD_POS_LIMIT;

verus! {

/// Smallest zoom, in thousandths.
pub const ZOOM_MIN: i64 = 300;

/// Largest zoom, in thousandths.
pub const ZOOM_MAX: i64 = 5000;

/// Bound on a viewport dimension in pixels.
pub const SCREEN_LIMIT: i64 = 1_000_000;

/// The 2D camera: the world point it looks at, the screen-space offset of
/// that point, and a zoom factor in thousandths (1000 is 1x).
#[derive(Clone, Copy, PartialEq, Eq, Structural, Debug)]
pub struct Camera {
    pub target: Vec2,
    pub offset: Vec2,
    pub zoom_milli: i64,
}

impl Camera {
    pub open spec fn wf(self) -> bool {
        &&& -WORLD_POS_LIMIT <= self.target.x <= WORLD_POS_LIMIT
        &&& -WORLD_POS_LIMIT <= self.target.y <= WORLD_POS_LIMIT
        &&& -SCREEN_LIMIT <= self.offset.x <= SCREEN_LIMIT
        &&& -SCREEN_LIMIT <= self.offset.y <= SCREEN_LIMIT
        &&& ZOOM_MIN <= self.zoom_milli <= ZOOM_MAX
    }
}

impl Default for Camera {
    /// A camera at the origin with 1x zoom.
    fn default() -> (c: Camera)
        ensures
            c == (Camera { target: Vec2 { x: 0, y: 0 }, offset: Vec2 { x: 0, y: 0 }, zoom_milli: 1000 }),
    {
        Camera { target: Vec2 { x: 0, y: 0 }, offset: Vec2 { x: 0, y: 0 }, zoom_milli: 1000 }
    }
}

/// The world-space rectangle the camera sees: `target` plus or minus the
/// viewport extent divided by the zoom factor, per axis.
pub open spec fn view_rect_model(target: Vec2, zoom_milli: int, screen: Vec2) -> RectM {
    let hx = (screen.x * 1000) / zoom_milli;
    let hy = (screen.y * 1000) / zoom_milli;
    RectM { x: target.x - hx, y: target.y - hy, width: 2 * hx, height: 2 * hy }
}

/// Aim the camera at a target point and adjust its zoom by a scroll delta,
/// clamped into the legal zoom range. A zero delta leaves the zoom alone.
pub fn move_camera_to_target_system(camera: &mut Camera, target: Vec2, zoom_delta_milli: i64)
    requires
        old(camera).wf(),
        -WORLD_POS_LIMIT <= target.x <= WORLD_POS_LIMIT,
        -WORLD_POS_LIMIT <= target.y <= WORLD_POS_LIMIT,
        -ZOOM_MAX <= zoom_delta_milli <= ZOOM_MAX,
    ensures
        final(camera).wf(),
        final(camera).target == target,
        final(camera).offset == old(camera).offset,
        zoom_delta_milli == 0 ==> final(camera).zoom_milli == old(camera).zoom_milli,
        zoom_delta_milli != 0 ==> final(camera).zoom_milli == ({
            let z = old(camera).zoom_milli + zoom_delta_milli;
            if z < ZOOM_MIN {
                ZOOM_MIN as int
            } else if z > ZOOM_MAX {
                ZOOM_MAX as int
            } else {
                z
            }
        }),
{
    camera.target = target;
    if zoom_delta_milli != 0 {
        let z = camera.zoom_milli + zoom_delta_milli;
        camera.zoom_milli = if z < ZOOM_MIN {
            ZOOM_MIN
        } else if z > ZOOM_MAX {
            ZOOM_MAX
        } else {
            z
        };
    }
}

/// Re-centre the camera's screen offset after the window was resized.
pub fn update_camera_offset(camera: &mut Camera, width: i64, height: i64)
    requires
        old(camera).wf(),
        0 <= width <= SCREEN_LIMIT,
        0 <= height <= SCREEN_LIMIT,
    ensures
        final(camera).wf(),
        final(camera).offset.x == width as int / 2,
        final(camera).offset.y == height as int / 2,
        final(camera).target == old(camera).target,
        final(camera).zoom_milli == old(camera).zoom_milli,
{
    camera.offset = Vec2 { x: div_floor(width, 2), y: div_floor(height, 2) };
}

/// The world-space rectangle the camera currently sees on a viewport of the
/// given size.
pub fn camera_view_rect(camera: &Camera, screen: Vec2) -> (r: Rect)
    requires
        camera.wf(),
        0 <= screen.x <= SCREEN_LIMIT,
        0 <= screen.y <= SCREEN_LIMIT,
    ensures
        r.m() == view_rect_model(camera.target, camera.zoom_milli as int, screen),
        rect_wf(r.m()),
{
    let hx = div_floor(screen.x * 1000, camera.zoom_milli);
    let hy = div_floor(screen.y * 1000, camera.zoom_milli);
    proof {
        vstd::arithmetic::div_mod::lemma_div_is_ordered(
            screen.x * 1000,
            SCREEN_LIMIT * 1000,
            camera.zoom_milli as int,
        );
        vstd::arithmetic::div_mod::lemma_div_is_ordered(
            screen.y * 1000,
            SCREEN_LIMIT * 1000,
            camera.zoom_milli as int,
        );
        vstd::arithmetic::div_mod::lemma_div_is_ordered_by_denominator(
            SCREEN_LIMIT * 1000,
            ZOOM_MIN as int,
            camera.zoom_milli as int,
        );
    }
    Rect { x: camera.target.x - hx, y: camera.target.y - hy, width: 2 * hx, height: 2 * hy }
}

} // verus!
