//! Collision resolution for one mover against its candidate obstacles.
//!
//! A mover with velocity applies its X displacement, is clamped flush
//! against every overlapping obstacle on the side it approached from, then
//! does the same on the Y axis (axis-sequential, a deliberate design
//! limitation). A mover at rest is pushed out of every overlapping obstacle
//! along the axis of least penetration, away from the obstacle's centre;
//! a fellow mover that is itself moving is never treated as an obstacle for
//! a resting mover, since its own resolution step handles that contact.

use vstd::prelude::*;
use crate::geom::{
    rect_coords, rect_sized, rects_overlap, Rect, RectM, Vec2, div_floor, EXTENT_BOUND,
    MOVER_BOUND, RECT_BOUND,
};
use crate::components::VEL_LIMIT;

verus! {

/// `m` displaced by `d` along the X axis.
pub open spec fn shift_x(m: RectM, d: int) -> RectM {
    RectM { x: m.x + d, y: m.y, width: m.width, height: m.height }
}

/// `m` displaced by `d` along the Y axis.
pub open spec fn shift_y(m: RectM, d: int) -> RectM {
    RectM { x: m.x, y: m.y + d, width: m.width, height: m.height }
}

pub open spec fn iabs(v: int) -> int {
    if v >= 0 {
        v
    } else {
        -v
    }
}

/// One X-axis clamp: a mover overlapping `o` while moving right stops flush
/// against `o`'s left edge; moving left, flush against its right edge.
pub open spec fn clamp_step_x(m: RectM, vx: int, o: RectM) -> RectM {
    if rects_overlap(m, o) {
        if vx > 0 {
            RectM { x: o.x - m.width, y: m.y, width: m.width, height: m.height }
        } else if vx < 0 {
            RectM { x: o.x + o.width, y: m.y, width: m.width, height: m.height }
        } else {
            m
        }
    } else {
        m
    }
}

/// One Y-axis clamp: stop flush above a floor or below a ceiling.
pub open spec fn clamp_step_y(m: RectM, vy: int, o: RectM) -> RectM {
    if rects_overlap(m, o) {
        if vy > 0 {
            RectM { x: m.x, y: o.y - m.height, width: m.width, height: m.height }
        } else if vy < 0 {
            RectM { x: m.x, y: o.y + o.height, width: m.width, height: m.height }
        } else {
            m
        }
    } else {
        m
    }
}

/// X-axis clamp against each obstacle in order.
pub open spec fn clamp_x(m: RectM, vx: int, obs: Seq<RectM>) -> RectM
    decreases obs.len(),
{
    if obs.len() == 0 {
        m
    } else {
        clamp_x(clamp_step_x(m, vx, obs[0]), vx, obs.drop_first())
    }
}

/// Y-axis clamp against each obstacle in order.
pub open spec fn clamp_y(m: RectM, vy: int, obs: Seq<RectM>) -> RectM
    decreases obs.len(),
{
    if obs.len() == 0 {
        m
    } else {
        clamp_y(clamp_step_y(m, vy, obs[0]), vy, obs.drop_first())
    }
}

/// Minimum-translation push-out of `m` from an overlapping `o`: along the
/// axis of smaller penetration, away from `o`'s centre. Distances are
/// doubled to stay in integers; the pushes themselves are exact.
pub open spec fn mtv_step(m: RectM, o: RectM) -> RectM {
    if rects_overlap(m, o) {
        let dx2 = (2 * m.x + m.width) - (2 * o.x + o.width);
        let dy2 = (2 * m.y + m.height) - (2 * o.y + o.height);
        let ix2 = m.width + o.width - iabs(dx2);
        let iy2 = m.height + o.height - iabs(dy2);
        if ix2 < iy2 {
            if dx2 > 0 {
                RectM { x: m.x + ix2 / 2, y: m.y, width: m.width, height: m.height }
            } else {
                RectM { x: m.x - ix2 / 2, y: m.y, width: m.width, height: m.height }
            }
        } else {
            if dy2 > 0 {
                RectM { x: m.x, y: m.y + iy2 / 2, width: m.width, height: m.height }
            } else {
                RectM { x: m.x, y: m.y - iy2 / 2, width: m.width, height: m.height }
            }
        }
    } else {
        m
    }
}

/// Push-out against each obstacle in order.
pub open spec fn mtv_fold(m: RectM, obs: Seq<RectM>) -> RectM
    decreases obs.len(),
{
    if obs.len() == 0 {
        m
    } else {
        mtv_fold(mtv_step(m, obs[0]), obs.drop_first())
    }
}

/// Push-out against every fellow mover that is itself at rest; movers with
/// velocity are left to their own resolution step.
pub open spec fn mtv_fold_movers(m: RectM, others: Seq<(RectM, (int, int))>) -> RectM
    decreases others.len(),
{
    if others.len() == 0 {
        m
    } else {
        let m2 = if others[0].1.0 == 0 && others[0].1.1 == 0 {
            mtv_step(m, others[0].0)
        } else {
            m
        };
        mtv_fold_movers(m2, others.drop_first())
    }
}

/// Resolution of a mover with non-zero velocity: X displacement, clamp
/// against statics then fellow movers, then the same on the Y axis.
pub open spec fn resolve_moving(
    m: RectM,
    vx: int,
    vy: int,
    statics: Seq<RectM>,
    others: Seq<RectM>,
) -> RectM {
    let m1 = clamp_x(clamp_x(shift_x(m, vx), vx, statics), vx, others);
    clamp_y(clamp_y(shift_y(m1, vy), vy, statics), vy, others)
}

/// Resolution of a mover at rest: push out of statics, then out of fellow
/// movers that are also at rest.
pub open spec fn resolve_stationary(
    m: RectM,
    statics: Seq<RectM>,
    others: Seq<(RectM, (int, int))>,
) -> RectM {
    mtv_fold_movers(mtv_fold(m, statics), others)
}

/// Full resolution of one mover for one tick.
pub open spec fn resolve_one(
    m: RectM,
    vx: int,
    vy: int,
    statics: Seq<RectM>,
    others: Seq<(RectM, (int, int))>,
) -> RectM {
    if vx != 0 || vy != 0 {
        resolve_moving(m, vx, vy, statics, others.map_values(|p: (RectM, (int, int))| p.0))
    } else {
        resolve_stationary(m, statics, others)
    }
}

/// The mathematical rectangles of a list of rectangles.
pub open spec fn rects_m(s: Seq<Rect>) -> Seq<RectM> {
    s.map_values(|x: Rect| x.m())
}

/// The mathematical rectangles and velocities of a list of movers.
pub open spec fn movers_m(s: Seq<(Rect, Vec2)>) -> Seq<(RectM, (int, int))> {
    s.map_values(|p: (Rect, Vec2)| (p.0.m(), (p.1.x as int, p.1.y as int)))
}

proof fn lemma_clamp_x_unfold(m: RectM, vx: int, obs: Seq<RectM>, i: int)
    requires
        0 <= i < obs.len(),
    ensures
        clamp_x(m, vx, obs.subrange(i, obs.len() as int)) == clamp_x(
            clamp_step_x(m, vx, obs[i]),
            vx,
            obs.subrange(i + 1, obs.len() as int),
        ),
{
    assert(obs.subrange(i, obs.len() as int).drop_first() =~= obs.subrange(i + 1, obs.len() as int));
    assert(obs.subrange(i, obs.len() as int)[0] == obs[i]);
}

proof fn lemma_clamp_y_unfold(m: RectM, vy: int, obs: Seq<RectM>, i: int)
    requires
        0 <= i < obs.len(),
    ensures
        clamp_y(m, vy, obs.subrange(i, obs.len() as int)) == clamp_y(
            clamp_step_y(m, vy, obs[i]),
            vy,
            obs.subrange(i + 1, obs.len() as int),
        ),
{
    assert(obs.subrange(i, obs.len() as int).drop_first() =~= obs.subrange(i + 1, obs.len() as int));
    assert(obs.subrange(i, obs.len() as int)[0] == obs[i]);
}

proof fn lemma_mtv_unfold(m: RectM, obs: Seq<RectM>, i: int)
    requires
        0 <= i < obs.len(),
    ensures
        mtv_fold(m, obs.subrange(i, obs.len() as int)) == mtv_fold(
            mtv_step(m, obs[i]),
            obs.subrange(i + 1, obs.len() as int),
        ),
{
    assert(obs.subrange(i, obs.len() as int).drop_first() =~= obs.subrange(i + 1, obs.len() as int));
    assert(obs.subrange(i, obs.len() as int)[0] == obs[i]);
}

proof fn lemma_mtv_movers_unfold(m: RectM, others: Seq<(RectM, (int, int))>, i: int)
    requires
        0 <= i < others.len(),
    ensures
        mtv_fold_movers(m, others.subrange(i, others.len() as int)) == mtv_fold_movers(
            if others[i].1.0 == 0 && others[i].1.1 == 0 {
                mtv_step(m, others[i].0)
            } else {
                m
            },
            others.subrange(i + 1, others.len() as int),
        ),
{
    assert(others.subrange(i, others.len() as int).drop_first() =~= others.subrange(
        i + 1,
        others.len() as int,
    ));
    assert(others.subrange(i, others.len() as int)[0] == others[i]);
}

spec fn bmax(a: int, b: int) -> int {
    if a >= b {
        a
    } else {
        b
    }
}

/// A push-out lands the mover exactly flush against the obstacle's edge on
/// the axis of least penetration, away from the obstacle's centre, moving it
/// by exactly the penetration depth; afterwards the two no longer overlap.
pub proof fn lemma_mtv_step_flush(m: RectM, o: RectM)
    requires
        rects_overlap(m, o),
        rect_sized(m),
        rect_sized(o),
    ensures
        ({
            let r = mtv_step(m, o);
            let dx2 = (2 * m.x + m.width) - (2 * o.x + o.width);
            let dy2 = (2 * m.y + m.height) - (2 * o.y + o.height);
            let ix2 = m.width + o.width - iabs(dx2);
            let iy2 = m.height + o.height - iabs(dy2);
            &&& r.width == m.width && r.height == m.height
            &&& 0 < ix2 && 0 < iy2
            &&& (ix2 < iy2 ==> r.y == m.y && 2 * iabs(r.x - m.x) == ix2 && (if dx2 > 0 {
                r.x == o.x + o.width
            } else {
                r.x == o.x - m.width
            }))
            &&& (ix2 >= iy2 ==> r.x == m.x && 2 * iabs(r.y - m.y) == iy2 && (if dy2 > 0 {
                r.y == o.y + o.height
            } else {
                r.y == o.y - m.height
            }))
            &&& !rects_overlap(r, o)
        }),
{
    let dx2 = (2 * m.x + m.width) - (2 * o.x + o.width);
    let dy2 = (2 * m.y + m.height) - (2 * o.y + o.height);
    let ix2 = m.width + o.width - iabs(dx2);
    let iy2 = m.height + o.height - iabs(dy2);
    if ix2 < iy2 {
        if dx2 > 0 {
            assert(ix2 == 2 * (o.x + o.width - m.x));
            vstd::arithmetic::div_mod::lemma_div_multiples_vanish(o.x + o.width - m.x, 2);
        } else {
            assert(ix2 == 2 * (m.x + m.width - o.x));
            vstd::arithmetic::div_mod::lemma_div_multiples_vanish(m.x + m.width - o.x, 2);
        }
    } else {
        if dy2 > 0 {
            assert(iy2 == 2 * (o.y + o.height - m.y));
            vstd::arithmetic::div_mod::lemma_div_multiples_vanish(o.y + o.height - m.y, 2);
        } else {
            assert(iy2 == 2 * (m.y + m.height - o.y));
            vstd::arithmetic::div_mod::lemma_div_multiples_vanish(m.y + m.height - o.y, 2);
        }
    }
}

proof fn lemma_clamp_x_bound(m: RectM, vx: int, obs: Seq<RectM>, b: int, c: int)
    requires
        rect_coords(m, c),
        rect_sized(m),
        forall|i: int|
            0 <= i < obs.len() ==> rect_coords(#[trigger] obs[i], b) && rect_sized(obs[i]),
        0 <= b,
        0 <= c,
    ensures
        ({
            let r = clamp_x(m, vx, obs);
            &&& rect_coords(r, bmax(c, b + 2 * EXTENT_BOUND))
            &&& r.width == m.width
            &&& r.height == m.height
            &&& r.y == m.y
        }),
    decreases obs.len(),
{
    if obs.len() > 0 {
        let c2 = bmax(c, b + 2 * EXTENT_BOUND);
        let m2 = clamp_step_x(m, vx, obs[0]);
        assert(rect_coords(m2, c2));
        assert forall|i: int|
            0 <= i < obs.drop_first().len() implies rect_coords(#[trigger] obs.drop_first()[i], b)
            && rect_sized(obs.drop_first()[i]) by {
            assert(obs.drop_first()[i] == obs[i + 1]);
        }
        lemma_clamp_x_bound(m2, vx, obs.drop_first(), b, c2);
    }
}

proof fn lemma_clamp_y_bound(m: RectM, vy: int, obs: Seq<RectM>, b: int, c: int)
    requires
        rect_coords(m, c),
        rect_sized(m),
        forall|i: int|
            0 <= i < obs.len() ==> rect_coords(#[trigger] obs[i], b) && rect_sized(obs[i]),
        0 <= b,
        0 <= c,
    ensures
        ({
            let r = clamp_y(m, vy, obs);
            &&& rect_coords(r, bmax(c, b + 2 * EXTENT_BOUND))
            &&& r.width == m.width
            &&& r.height == m.height
            &&& r.x == m.x
        }),
    decreases obs.len(),
{
    if obs.len() > 0 {
        let c2 = bmax(c, b + 2 * EXTENT_BOUND);
        let m2 = clamp_step_y(m, vy, obs[0]);
        assert(rect_coords(m2, c2));
        assert forall|i: int|
            0 <= i < obs.drop_first().len() implies rect_coords(#[trigger] obs.drop_first()[i], b)
            && rect_sized(obs.drop_first()[i]) by {
            assert(obs.drop_first()[i] == obs[i + 1]);
        }
        lemma_clamp_y_bound(m2, vy, obs.drop_first(), b, c2);
    }
}

proof fn lemma_mtv_step_bound(m: RectM, o: RectM, b: int, c: int)
    requires
        rect_coords(m, c),
        rect_sized(m),
        rect_coords(o, b),
        rect_sized(o),
        0 <= b,
        0 <= c,
    ensures
        ({
            let r = mtv_step(m, o);
            &&& rect_coords(r, bmax(c, b + 2 * EXTENT_BOUND))
            &&& r.width == m.width
            &&& r.height == m.height
        }),
{
    if rects_overlap(m, o) {
        lemma_mtv_step_flush(m, o);
    }
}

proof fn lemma_mtv_fold_bound(m: RectM, obs: Seq<RectM>, b: int, c: int)
    requires
        rect_coords(m, c),
        rect_sized(m),
        forall|i: int|
            0 <= i < obs.len() ==> rect_coords(#[trigger] obs[i], b) && rect_sized(obs[i]),
        0 <= b,
        0 <= c,
    ensures
        ({
            let r = mtv_fold(m, obs);
            &&& rect_coords(r, bmax(c, b + 2 * EXTENT_BOUND))
            &&& r.width == m.width
            &&& r.height == m.height
        }),
    decreases obs.len(),
{
    if obs.len() > 0 {
        let c2 = bmax(c, b + 2 * EXTENT_BOUND);
        lemma_mtv_step_bound(m, obs[0], b, c);
        assert forall|i: int|
            0 <= i < obs.drop_first().len() implies rect_coords(#[trigger] obs.drop_first()[i], b)
            && rect_sized(obs.drop_first()[i]) by {
            assert(obs.drop_first()[i] == obs[i + 1]);
        }
        lemma_mtv_fold_bound(mtv_step(m, obs[0]), obs.drop_first(), b, c2);
    }
}

proof fn lemma_mtv_movers_bound(m: RectM, others: Seq<(RectM, (int, int))>, b: int, c: int)
    requires
        rect_coords(m, c),
        rect_sized(m),
        forall|i: int|
            0 <= i < others.len() ==> rect_coords((#[trigger] others[i]).0, b) && rect_sized(
                others[i].0,
            ),
        0 <= b,
        0 <= c,
    ensures
        ({
            let r = mtv_fold_movers(m, others);
            &&& rect_coords(r, bmax(c, b + 2 * EXTENT_BOUND))
            &&& r.width == m.width
            &&& r.height == m.height
        }),
    decreases others.len(),
{
    if others.len() > 0 {
        let c2 = bmax(c, b + 2 * EXTENT_BOUND);
        let m2 = if others[0].1.0 == 0 && others[0].1.1 == 0 {
            mtv_step(m, others[0].0)
        } else {
            m
        };
        lemma_mtv_step_bound(m, others[0].0, b, c);
        assert forall|i: int|
            0 <= i < others.drop_first().len() implies rect_coords(
            (#[trigger] others.drop_first()[i]).0,
            b,
        ) && rect_sized(others.drop_first()[i].0) by {
            assert(others.drop_first()[i] == others[i + 1]);
        }
        lemma_mtv_movers_bound(m2, others.drop_first(), b, c2);
    }
}

/// A resolved mover's rectangle keeps its extents, and its coordinates drift
/// by at most one velocity and two extents past the largest coordinate among
/// the mover and its obstacles.
pub proof fn lemma_resolve_one_bound(
    m: RectM,
    vx: int,
    vy: int,
    statics: Seq<RectM>,
    others: Seq<(RectM, (int, int))>,
    c: int,
)
    requires
        rect_coords(m, c),
        rect_sized(m),
        RECT_BOUND <= c,
        -VEL_LIMIT <= vx <= VEL_LIMIT,
        -VEL_LIMIT <= vy <= VEL_LIMIT,
        forall|i: int| 0 <= i < statics.len() ==> crate::geom::rect_wf(#[trigger] statics[i]),
        forall|i: int|
            0 <= i < others.len() ==> rect_coords((#[trigger] others[i]).0, c) && rect_sized(
                others[i].0,
            ),
    ensures
        ({
            let r = resolve_one(m, vx, vy, statics, others);
            &&& rect_coords(r, c + VEL_LIMIT + 2 * EXTENT_BOUND)
            &&& r.width == m.width
            &&& r.height == m.height
        }),
{
    let cbig = c + VEL_LIMIT + 2 * EXTENT_BOUND;
    if vx != 0 || vy != 0 {
        let omr = others.map_values(|p: (RectM, (int, int))| p.0);
        assert(forall|i: int| 0 <= i < others.len() ==> omr[i] == (#[trigger] others[i]).0);
        let m0 = shift_x(m, vx);
        assert(rect_coords(m0, c + VEL_LIMIT));
        lemma_clamp_x_bound(m0, vx, statics, RECT_BOUND as int, c + VEL_LIMIT);
        let m1 = clamp_x(m0, vx, statics);
        lemma_clamp_x_bound(m1, vx, omr, c, bmax(c + VEL_LIMIT, RECT_BOUND + 2 * EXTENT_BOUND));
        let m2 = clamp_x(m1, vx, omr);
        let m3 = shift_y(m2, vy);
        assert(rect_coords(m3, cbig));
        lemma_clamp_y_bound(m3, vy, statics, RECT_BOUND as int, cbig);
        let m4 = clamp_y(m3, vy, statics);
        lemma_clamp_y_bound(m4, vy, omr, c, cbig);
    } else {
        lemma_mtv_fold_bound(m, statics, RECT_BOUND as int, c);
        let m1 = mtv_fold(m, statics);
        lemma_mtv_movers_bound(m1, others, c, bmax(c, RECT_BOUND + 2 * EXTENT_BOUND));
    }
}

/// A mover whose displaced rectangle overlaps a single static wall while
/// moving in the positive X direction ends the tick exactly flush against
/// the wall's near edge, no longer overlapping it; its Y position and its
/// extents are untouched.
pub proof fn lemma_mover_stops_at_wall(m: RectM, o: RectM, vx: int)
    requires
        rect_sized(m),
        rect_sized(o),
        vx > 0,
        rects_overlap(shift_x(m, vx), o),
    ensures
        ({
            let r = resolve_one(m, vx, 0, seq![o], Seq::<(RectM, (int, int))>::empty());
            &&& r.x + r.width == o.x
            &&& r.y == m.y
            &&& r.width == m.width
            &&& r.height == m.height
            &&& !rects_overlap(r, o)
        }),
{
    let s = seq![o];
    let ms = shift_x(m, vx);
    assert(s[0] == o);
    assert(s.drop_first() =~= Seq::<RectM>::empty());
    let m1 = clamp_step_x(ms, vx, o);
    assert(m1.x == o.x - m.width);
    assert(clamp_x(ms, vx, s) == clamp_x(m1, vx, s.drop_first()));
    assert(s.drop_first().len() == 0);
    assert(clamp_x(m1, vx, s.drop_first()) == m1);
    let none = Seq::<(RectM, (int, int))>::empty();
    assert(none.map_values(|p: (RectM, (int, int))| p.0) =~= Seq::<RectM>::empty());
    let m2 = shift_y(m1, 0);
    assert(m2 == m1);
    assert(clamp_step_y(m2, 0, o) == m2);
    assert(clamp_y(m2, 0, s) == clamp_y(m2, 0, s.drop_first()));
    assert(clamp_y(m2, 0, s.drop_first()) == m2);
    assert(clamp_y(m2, 0, Seq::<RectM>::empty()) == m2);
}

/// Two stationary overlapping rectangles of equal size: resolving the first
/// against the second pushes it flush along the axis of least penetration,
/// away from the second's centre, by exactly the penetration depth, so the
/// two no longer overlap.
pub proof fn lemma_stationary_pair_separates(a: RectM, b: RectM)
    requires
        rect_sized(a),
        rect_sized(b),
        a.width == b.width,
        a.height == b.height,
        rects_overlap(a, b),
    ensures
        ({
            let r = resolve_one(a, 0, 0, Seq::<RectM>::empty(), seq![(b, (0int, 0int))]);
            let dx2 = (2 * a.x + a.width) - (2 * b.x + b.width);
            let dy2 = (2 * a.y + a.height) - (2 * b.y + b.height);
            let ix2 = a.width + b.width - iabs(dx2);
            let iy2 = a.height + b.height - iabs(dy2);
            &&& r == mtv_step(a, b)
            &&& !rects_overlap(r, b)
            &&& r.width == a.width && r.height == a.height
            &&& (ix2 < iy2 ==> r.y == a.y && 2 * iabs(r.x - a.x) == ix2 && (dx2 > 0 <==> r.x > a.x))
            &&& (ix2 >= iy2 ==> r.x == a.x && 2 * iabs(r.y - a.y) == iy2 && (dy2 > 0 <==> r.y
                > a.y))
        }),
{
    let others = seq![(b, (0int, 0int))];
    assert(others[0] == (b, (0int, 0int)));
    assert(others.drop_first() =~= Seq::<(RectM, (int, int))>::empty());
    assert(mtv_fold(a, Seq::<RectM>::empty()) == a);
    assert(mtv_fold_movers(a, others) == mtv_fold_movers(mtv_step(a, b), others.drop_first()));
    lemma_mtv_step_flush(a, b);
}

/// Resolve one mover's rectangle for this tick against the candidate static
/// rectangles from the broad phase and the current rectangles (and
/// velocities) of every other mover.
pub fn resolve_mover_rect(rect: Rect, vel: Vec2, statics: &Vec<Rect>, others: &Vec<(Rect, Vec2)>) -> (r: Rect)
    requires
        rect_coords(rect.m(), MOVER_BOUND as int),
        rect_sized(rect.m()),
        -VEL_LIMIT <= vel.x <= VEL_LIMIT,
        -VEL_LIMIT <= vel.y <= VEL_LIMIT,
        forall|i: int| 0 <= i < statics@.len() ==> crate::geom::rect_wf((#[trigger] statics@[i]).m()),
        forall|i: int|
            0 <= i < others@.len() ==> rect_coords((#[trigger] others@[i]).0.m(), MOVER_BOUND as int)
                && rect_sized(others@[i].0.m()),
    ensures
        r.m() == resolve_one(rect.m(), vel.x as int, vel.y as int, rects_m(statics@), movers_m(others@)),
        r.width == rect.width,
        r.height == rect.height,
{
    let ghost sm = rects_m(statics@);
    let ghost om = movers_m(others@);
    let ghost inter: int = MOVER_BOUND + VEL_LIMIT + 2 * EXTENT_BOUND;
    proof {
        assert(sm.len() == statics@.len());
        assert(om.len() == others@.len());
        assert(forall|i: int| 0 <= i < statics@.len() ==> sm[i] == (#[trigger] statics@[i]).m());
        assert(forall|i: int|
            0 <= i < others@.len() ==> om[i] == ((#[trigger] others@[i]).0.m(), (
            others@[i].1.x as int,
            others@[i].1.y as int,
            )));
    }
    let mut cur: Rect = rect;
    if vel.x != 0 || vel.y != 0 {
        let ghost omr = om.map_values(|p: (RectM, (int, int))| p.0);
        proof {
            assert(omr.len() == others@.len());
            assert(forall|i: int|
                0 <= i < others@.len() ==> omr[i] == (#[trigger] others@[i]).0.m());
        }
        cur.x = cur.x + vel.x;
        let ghost mshift = shift_x(rect.m(), vel.x as int);
        proof {
            assert(cur.m() == mshift);
            assert(sm.subrange(0, sm.len() as int) =~= sm);
        }
        let mut i: usize = 0;
        while i < statics.len()
            invariant
                i <= statics@.len(),
                sm == rects_m(statics@),
                sm.len() == statics@.len(),
                forall|k: int| 0 <= k < statics@.len() ==> crate::geom::rect_wf((#[trigger] statics@[k]).m()),
                forall|k: int| 0 <= k < statics@.len() ==> sm[k] == (#[trigger] statics@[k]).m(),
                rect_coords(cur.m(), inter),
                rect_sized(cur.m()),
                cur.width == rect.width,
                cur.height == rect.height,
                cur.y == rect.y,
                inter == MOVER_BOUND + VEL_LIMIT + 2 * EXTENT_BOUND,
                clamp_x(mshift, vel.x as int, sm) == clamp_x(
                    cur.m(),
                    vel.x as int,
                    sm.subrange(i as int, sm.len() as int),
                ),
            decreases statics@.len() - i,
        {
            proof {
                lemma_clamp_x_unfold(cur.m(), vel.x as int, sm, i as int);
            }
            if cur.collides_rect(&statics[i]) {
                if vel.x > 0 {
                    cur.x = statics[i].x - cur.width;
                } else if vel.x < 0 {
                    cur.x = statics[i].x + statics[i].width;
                }
            }
            i = i + 1;
        }
        let ghost m1 = clamp_x(mshift, vel.x as int, sm);
        proof {
            assert(sm.subrange(sm.len() as int, sm.len() as int) =~= Seq::<RectM>::empty());
            assert(cur.m() == m1);
            assert(omr.subrange(0, omr.len() as int) =~= omr);
        }
        let mut i: usize = 0;
        while i < others.len()
            invariant
                i <= others@.len(),
                omr == movers_m(others@).map_values(|p: (RectM, (int, int))| p.0),
                omr.len() == others@.len(),
                forall|k: int|
                    0 <= k < others@.len() ==> rect_coords(
                        (#[trigger] others@[k]).0.m(),
                        MOVER_BOUND as int,
                    ) && rect_sized(others@[k].0.m()),
                forall|k: int| 0 <= k < others@.len() ==> omr[k] == (#[trigger] others@[k]).0.m(),
                rect_coords(cur.m(), inter),
                rect_sized(cur.m()),
                cur.width == rect.width,
                cur.height == rect.height,
                cur.y == rect.y,
                inter == MOVER_BOUND + VEL_LIMIT + 2 * EXTENT_BOUND,
                clamp_x(m1, vel.x as int, omr) == clamp_x(
                    cur.m(),
                    vel.x as int,
                    omr.subrange(i as int, omr.len() as int),
                ),
            decreases others@.len() - i,
        {
            proof {
                lemma_clamp_x_unfold(cur.m(), vel.x as int, omr, i as int);
            }
            if cur.collides_rect(&others[i].0) {
                if vel.x > 0 {
                    cur.x = others[i].0.x - cur.width;
                } else if vel.x < 0 {
                    cur.x = others[i].0.x + others[i].0.width;
                }
            }
            i = i + 1;
        }
        let ghost m2 = clamp_x(m1, vel.x as int, omr);
        proof {
            assert(omr.subrange(omr.len() as int, omr.len() as int) =~= Seq::<RectM>::empty());
            assert(cur.m() == m2);
        }
        cur.y = cur.y + vel.y;
        let ghost m3 = shift_y(m2, vel.y as int);
        proof {
            assert(cur.m() == m3);
            assert(sm.subrange(0, sm.len() as int) =~= sm);
        }
        let mut i: usize = 0;
        while i < statics.len()
            invariant
                i <= statics@.len(),
                sm == rects_m(statics@),
                sm.len() == statics@.len(),
                forall|k: int| 0 <= k < statics@.len() ==> crate::geom::rect_wf((#[trigger] statics@[k]).m()),
                forall|k: int| 0 <= k < statics@.len() ==> sm[k] == (#[trigger] statics@[k]).m(),
                rect_coords(cur.m(), inter),
                rect_sized(cur.m()),
                cur.width == rect.width,
                cur.height == rect.height,
                inter == MOVER_BOUND + VEL_LIMIT + 2 * EXTENT_BOUND,
                clamp_y(m3, vel.y as int, sm) == clamp_y(
                    cur.m(),
                    vel.y as int,
                    sm.subrange(i as int, sm.len() as int),
                ),
            decreases statics@.len() - i,
        {
            proof {
                lemma_clamp_y_unfold(cur.m(), vel.y as int, sm, i as int);
            }
            if cur.collides_rect(&statics[i]) {
                if vel.y > 0 {
                    cur.y = statics[i].y - cur.height;
                } else if vel.y < 0 {
                    cur.y = statics[i].y + statics[i].height;
                }
            }
            i = i + 1;
        }
        let ghost m4 = clamp_y(m3, vel.y as int, sm);
        proof {
            assert(sm.subrange(sm.len() as int, sm.len() as int) =~= Seq::<RectM>::empty());
            assert(cur.m() == m4);
            assert(omr.subrange(0, omr.len() as int) =~= omr);
        }
        let mut i: usize = 0;
        while i < others.len()
            invariant
                i <= others@.len(),
                omr == movers_m(others@).map_values(|p: (RectM, (int, int))| p.0),
                omr.len() == others@.len(),
                forall|k: int|
                    0 <= k < others@.len() ==> rect_coords(
                        (#[trigger] others@[k]).0.m(),
                        MOVER_BOUND as int,
                    ) && rect_sized(others@[k].0.m()),
                forall|k: int| 0 <= k < others@.len() ==> omr[k] == (#[trigger] others@[k]).0.m(),
                rect_coords(cur.m(), inter),
                rect_sized(cur.m()),
                cur.width == rect.width,
                cur.height == rect.height,
                inter == MOVER_BOUND + VEL_LIMIT + 2 * EXTENT_BOUND,
                clamp_y(m4, vel.y as int, omr) == clamp_y(
                    cur.m(),
                    vel.y as int,
                    omr.subrange(i as int, omr.len() as int),
                ),
            decreases others@.len() - i,
        {
            proof {
                lemma_clamp_y_unfold(cur.m(), vel.y as int, omr, i as int);
            }
            if cur.collides_rect(&others[i].0) {
                if vel.y > 0 {
                    cur.y = others[i].0.y - cur.height;
                } else if vel.y < 0 {
                    cur.y = others[i].0.y + others[i].0.height;
                }
            }
            i = i + 1;
        }
        proof {
            assert(omr.subrange(omr.len() as int, omr.len() as int) =~= Seq::<RectM>::empty());
            assert(cur.m() == clamp_y(m4, vel.y as int, omr));
        }
    } else {
        proof {
            assert(sm.subrange(0, sm.len() as int) =~= sm);
        }
        let mut i: usize = 0;
        while i < statics.len()
            invariant
                i <= statics@.len(),
                sm == rects_m(statics@),
                sm.len() == statics@.len(),
                forall|k: int| 0 <= k < statics@.len() ==> crate::geom::rect_wf((#[trigger] statics@[k]).m()),
                forall|k: int| 0 <= k < statics@.len() ==> sm[k] == (#[trigger] statics@[k]).m(),
                rect_coords(cur.m(), MOVER_BOUND + 2 * EXTENT_BOUND),
                rect_sized(cur.m()),
                cur.width == rect.width,
                cur.height == rect.height,
                mtv_fold(rect.m(), sm) == mtv_fold(
                    cur.m(),
                    sm.subrange(i as int, sm.len() as int),
                ),
            decreases statics@.len() - i,
        {
            proof {
                lemma_mtv_unfold(cur.m(), sm, i as int);
            }
            if cur.collides_rect(&statics[i]) {
                push_out(&mut cur, &statics[i]);
            }
            i = i + 1;
        }
        let ghost m1 = mtv_fold(rect.m(), sm);
        proof {
            assert(sm.subrange(sm.len() as int, sm.len() as int) =~= Seq::<RectM>::empty());
            assert(cur.m() == m1);
            assert(om.subrange(0, om.len() as int) =~= om);
        }
        let mut i: usize = 0;
        while i < others.len()
            invariant
                i <= others@.len(),
                om == movers_m(others@),
                om.len() == others@.len(),
                forall|k: int|
                    0 <= k < others@.len() ==> rect_coords(
                        (#[trigger] others@[k]).0.m(),
                        MOVER_BOUND as int,
                    ) && rect_sized(others@[k].0.m()),
                forall|k: int|
                    0 <= k < others@.len() ==> om[k] == ((#[trigger] others@[k]).0.m(), (
                    others@[k].1.x as int,
                    others@[k].1.y as int,
                    )),
                rect_coords(cur.m(), MOVER_BOUND + 2 * EXTENT_BOUND),
                rect_sized(cur.m()),
                cur.width == rect.width,
                cur.height == rect.height,
                mtv_fold_movers(m1, om) == mtv_fold_movers(
                    cur.m(),
                    om.subrange(i as int, om.len() as int),
                ),
            decreases others@.len() - i,
        {
            proof {
                lemma_mtv_movers_unfold(cur.m(), om, i as int);
            }
            if others[i].1.x == 0 && others[i].1.y == 0 {
                if cur.collides_rect(&others[i].0) {
                    push_out(&mut cur, &others[i].0);
                }
            }
            i = i + 1;
        }
        proof {
            assert(om.subrange(om.len() as int, om.len() as int) =~= Seq::<
                (RectM, (int, int)),
            >::empty());
            assert(cur.m() == mtv_fold_movers(m1, om));
        }
    }
    cur
}

/// Push `cur` out of the overlapping obstacle `o` along the axis of least
/// penetration, away from `o`'s centre.
fn push_out(cur: &mut Rect, o: &Rect)
    requires
        rects_overlap(old(cur).m(), o.m()),
        rect_coords(old(cur).m(), (MOVER_BOUND + VEL_LIMIT + 2 * EXTENT_BOUND) as int),
        rect_sized(old(cur).m()),
        rect_coords(o.m(), MOVER_BOUND as int),
        rect_sized(o.m()),
    ensures
        final(cur).m() == mtv_step(old(cur).m(), o.m()),
        final(cur).width == old(cur).width,
        final(cur).height == old(cur).height,
{
    let dx2 = (2 * cur.x + cur.width) - (2 * o.x + o.width);
    let dy2 = (2 * cur.y + cur.height) - (2 * o.y + o.height);
    let adx2 = if dx2 >= 0 {
        dx2
    } else {
        -dx2
    };
    let ady2 = if dy2 >= 0 {
        dy2
    } else {
        -dy2
    };
    let ix2 = cur.width + o.width - adx2;
    let iy2 = cur.height + o.height - ady2;
    if ix2 < iy2 {
        let half = div_floor(ix2, 2);
        if dx2 > 0 {
            cur.x = cur.x + half;
        } else {
            cur.x = cur.x - half;
        }
    } else {
        let half = div_floor(iy2, 2);
        if dy2 > 0 {
            cur.y = cur.y + half;
        } else {
            cur.y = cur.y - half;
        }
    }
}

} // verus!
