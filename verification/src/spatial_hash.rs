//! Uniform-grid spatial index ("spatial hash"): maps each registered
//! rectangle to the set of grid cells it overlaps, supports insertion,
//! incremental update, and deduplicated range queries.
//!
//! A rectangle occupies every cell whose coordinate lies between
//! `floor(edge / cell_size)` of its near and far edges, inclusive, so an
//! entity overlapping a cell boundary is found from either adjoining query.

use vstd::prelude::*;
use crate::geom::{div_floor, Rect, RectM, rect_wf, RECT_BOUND};

verus! {

/// Bound on the grid cell size chosen at construction.
pub const CELL_SIZE_LIMIT: i64 = 1_000_000_000;

/// Bound on any coordinate handed to the floor-division helper.
pub const CELL_ARG_BOUND: i64 = 5_000_000_000_000_000;

/// Grid coordinate of the cell containing position `v` (floor division;
/// `/` on `int` is Euclidean, hence floor for a positive cell size).
pub open spec fn cell_of(csize: int, v: int) -> int {
    v / csize
}

/// Rectangle `r` occupies cell `(cx, cy)`: the cell lies in the inclusive
/// per-axis range from the rectangle's near edge to its far edge.
pub open spec fn covers(csize: int, r: RectM, cx: int, cy: int) -> bool {
    &&& cell_of(csize, r.x) <= cx <= cell_of(csize, r.x + r.width)
    &&& cell_of(csize, r.y) <= cy <= cell_of(csize, r.y + r.height)
}

/// The cell ranges of two rectangles intersect: some grid cell is occupied
/// by both.
pub open spec fn cells_touch(csize: int, a: RectM, b: RectM) -> bool {
    &&& cell_of(csize, a.x) <= cell_of(csize, b.x + b.width)
    &&& cell_of(csize, b.x) <= cell_of(csize, a.x + a.width)
    &&& cell_of(csize, a.y) <= cell_of(csize, b.y + b.height)
    &&& cell_of(csize, b.y) <= cell_of(csize, a.y + a.height)
}

/// Entities a query with rectangle `q` returns: those whose recorded
/// rectangle occupies a cell that `q` also occupies.
pub open spec fn query_model(m: Map<u64, RectM>, csize: int, q: RectM) -> Set<u64> {
    Set::new(|e: u64| m.contains_key(e) && cells_touch(csize, m[e], q))
}

/// `cells_touch` is exactly the existence of a shared cell.
pub proof fn lemma_touch_shared_cell(csize: int, a: RectM, b: RectM)
    requires
        1 <= csize,
        0 <= a.width,
        0 <= a.height,
        0 <= b.width,
        0 <= b.height,
    ensures
        cells_touch(csize, a, b) <==> exists|c: (int, int)|
            covers(csize, a, c.0, c.1) && covers(csize, b, c.0, c.1),
{
    vstd::arithmetic::div_mod::lemma_div_is_ordered(a.x, a.x + a.width, csize);
    vstd::arithmetic::div_mod::lemma_div_is_ordered(a.y, a.y + a.height, csize);
    vstd::arithmetic::div_mod::lemma_div_is_ordered(b.x, b.x + b.width, csize);
    vstd::arithmetic::div_mod::lemma_div_is_ordered(b.y, b.y + b.height, csize);
    if cells_touch(csize, a, b) {
        let wx = if cell_of(csize, a.x) >= cell_of(csize, b.x) { cell_of(csize, a.x) } else { cell_of(csize, b.x) };
        let wy = if cell_of(csize, a.y) >= cell_of(csize, b.y) { cell_of(csize, a.y) } else { cell_of(csize, b.y) };
        let w = (wx, wy);
        assert(covers(csize, a, w.0, w.1) && covers(csize, b, w.0, w.1));
    }
    if exists|c: (int, int)| covers(csize, a, c.0, c.1) && covers(csize, b, c.0, c.1) {
        let c = choose|c: (int, int)| covers(csize, a, c.0, c.1) && covers(csize, b, c.0, c.1);
        assert(cells_touch(csize, a, b));
    }
}

/// A rectangle lying entirely inside the query rectangle always shares a
/// cell with it, so the entity carrying it is always part of the query
/// result.
pub proof fn lemma_contained_rect_touches(csize: int, r: RectM, v: RectM)
    requires
        1 <= csize,
        0 <= r.width,
        0 <= r.height,
        v.x <= r.x,
        r.x + r.width <= v.x + v.width,
        v.y <= r.y,
        r.y + r.height <= v.y + v.height,
    ensures
        cells_touch(csize, r, v),
{
    vstd::arithmetic::div_mod::lemma_div_is_ordered(r.x, v.x + v.width, csize);
    vstd::arithmetic::div_mod::lemma_div_is_ordered(v.x, r.x + r.width, csize);
    vstd::arithmetic::div_mod::lemma_div_is_ordered(r.y, v.y + v.height, csize);
    vstd::arithmetic::div_mod::lemma_div_is_ordered(v.y, r.y + r.height, csize);
}

/// A rectangle sharing a cell with the query rectangle lies within one cell
/// size of it on both axes; hence an entity farther than one cell size from
/// the query area is never part of the query result.
pub proof fn lemma_touching_rect_is_near(csize: int, r: RectM, v: RectM)
    requires
        1 <= csize,
        cells_touch(csize, r, v),
    ensures
        r.x < v.x + v.width + csize,
        v.x < r.x + r.width + csize,
        r.y < v.y + v.height + csize,
        v.y < r.y + r.height + csize,
{
    if r.x >= v.x + v.width + csize {
        vstd::arithmetic::div_mod::lemma_div_plus_one(v.x + v.width, csize);
        vstd::arithmetic::div_mod::lemma_div_is_ordered(csize + (v.x + v.width), r.x, csize);
    }
    if v.x >= r.x + r.width + csize {
        vstd::arithmetic::div_mod::lemma_div_plus_one(r.x + r.width, csize);
        vstd::arithmetic::div_mod::lemma_div_is_ordered(csize + (r.x + r.width), v.x, csize);
    }
    if r.y >= v.y + v.height + csize {
        vstd::arithmetic::div_mod::lemma_div_plus_one(v.y + v.height, csize);
        vstd::arithmetic::div_mod::lemma_div_is_ordered(csize + (v.y + v.height), r.y, csize);
    }
    if v.y >= r.y + r.height + csize {
        vstd::arithmetic::div_mod::lemma_div_plus_one(r.y + r.height, csize);
        vstd::arithmetic::div_mod::lemma_div_is_ordered(csize + (r.y + r.height), v.y, csize);
    }
}

/// Visibility culling marks exactly the query result for the view
/// rectangle, so: an entity whose recorded rectangle lies entirely inside
/// the view is always marked, and a marked entity's rectangle is never
/// farther than one cell size from the view on either axis (cell
/// granularity is the precision limit of the grid's broad phase).
pub proof fn lemma_culling_bounds(m: Map<u64, RectM>, csize: int, v: RectM, e: u64)
    requires
        1 <= csize,
        m.contains_key(e),
        0 <= m[e].width,
        0 <= m[e].height,
    ensures
        (v.x <= m[e].x && m[e].x + m[e].width <= v.x + v.width && v.y <= m[e].y && m[e].y
            + m[e].height <= v.y + v.height) ==> query_model(m, csize, v).contains(e),
        query_model(m, csize, v).contains(e) ==> m[e].x < v.x + v.width + csize && v.x < m[e].x
            + m[e].width + csize && m[e].y < v.y + v.height + csize && v.y < m[e].y + m[e].height
            + csize,
{
    if v.x <= m[e].x && m[e].x + m[e].width <= v.x + v.width && v.y <= m[e].y && m[e].y
        + m[e].height <= v.y + v.height {
        lemma_contained_rect_touches(csize, m[e], v);
    }
    if query_model(m, csize, v).contains(e) {
        lemma_touching_rect_is_near(csize, m[e], v);
    }
}

/// After registering `e` under rectangle `r`, a query with `r` itself
/// contains `e`: a rectangle always shares a cell with itself.
pub proof fn lemma_query_after_insert(m: Map<u64, RectM>, csize: int, e: u64, r: RectM)
    requires
        1 <= csize,
        0 <= r.width,
        0 <= r.height,
    ensures
        query_model(m.insert(e, r), csize, r).contains(e),
{
    vstd::arithmetic::div_mod::lemma_div_is_ordered(r.x, r.x + r.width, csize);
    vstd::arithmetic::div_mod::lemma_div_is_ordered(r.y, r.y + r.height, csize);
}

/// After moving `e` from `r1` to a rectangle `r2` whose cells are disjoint
/// from `r1`'s, a query over `r1`'s area no longer contains `e`, and a query
/// over `r2` does.
pub proof fn lemma_query_after_disjoint_update(
    m: Map<u64, RectM>,
    csize: int,
    e: u64,
    r1: RectM,
    r2: RectM,
)
    requires
        1 <= csize,
        0 <= r1.width,
        0 <= r1.height,
        0 <= r2.width,
        0 <= r2.height,
        !cells_touch(csize, r1, r2),
    ensures
        !query_model(m.insert(e, r2), csize, r1).contains(e),
        query_model(m.insert(e, r2), csize, r2).contains(e),
{
    lemma_query_after_insert(m, csize, e, r2);
}

/// Re-registering `e` under the rectangle it already has changes nothing:
/// the recorded state after two identical updates equals the state after
/// one, so cell membership and every query result are identical as well.
pub proof fn lemma_update_idempotent(m: Map<u64, RectM>, e: u64, r: RectM)
    ensures
        m.insert(e, r).insert(e, r) == m.insert(e, r),
{
    assert(m.insert(e, r).insert(e, r) =~= m.insert(e, r));
}

/// Association list from entity to its recorded rectangle, as a map.
spec fn assoc_map(s: Seq<(u64, Rect)>) -> Map<u64, RectM>
    decreases s.len(),
{
    if s.len() == 0 {
        Map::empty()
    } else {
        assoc_map(s.drop_last()).insert(s.last().0, s.last().1.m())
    }
}

spec fn distinct_keys(s: Seq<(u64, Rect)>) -> bool {
    forall|i: int, j: int| 0 <= i < j < s.len() ==> (#[trigger] s[i]).0 != (#[trigger] s[j]).0
}

proof fn lemma_assoc_contains(s: Seq<(u64, Rect)>, e: u64)
    ensures
        assoc_map(s).contains_key(e) <==> exists|i: int| 0 <= i < s.len() && (#[trigger] s[i]).0 == e,
    decreases s.len(),
{
    if s.len() > 0 {
        lemma_assoc_contains(s.drop_last(), e);
        if s.last().0 == e {
            assert((s[s.len() - 1]).0 == e);
        } else {
            if assoc_map(s).contains_key(e) {
                let i = choose|i: int| 0 <= i < s.drop_last().len() && (#[trigger] s.drop_last()[i]).0 == e;
                assert((s[i]).0 == e);
            }
            if exists|i: int| 0 <= i < s.len() && (#[trigger] s[i]).0 == e {
                let i = choose|i: int| 0 <= i < s.len() && (#[trigger] s[i]).0 == e;
                assert(i < s.len() - 1);
                assert((s.drop_last()[i]).0 == e);
            }
        }
    }
}

proof fn lemma_assoc_at(s: Seq<(u64, Rect)>, i: int)
    requires
        distinct_keys(s),
        0 <= i < s.len(),
    ensures
        assoc_map(s).contains_key((s[i]).0),
        assoc_map(s)[(s[i]).0] == (s[i]).1.m(),
    decreases s.len(),
{
    if i == s.len() - 1 {
    } else {
        lemma_assoc_at(s.drop_last(), i);
        assert((s.drop_last()[i]).0 == (s[i]).0);
        assert((s[i]).0 != s.last().0);
    }
}

proof fn lemma_assoc_push(s: Seq<(u64, Rect)>, p: (u64, Rect))
    ensures
        assoc_map(s.push(p)) =~= assoc_map(s).insert(p.0, p.1.m()),
{
    assert(s.push(p).drop_last() =~= s);
    assert(s.push(p).last() == p);
}

proof fn lemma_assoc_update(s: Seq<(u64, Rect)>, i: int, r: Rect)
    requires
        distinct_keys(s),
        0 <= i < s.len(),
    ensures
        assoc_map(s.update(i, ((s[i]).0, r))) =~= assoc_map(s).insert((s[i]).0, r.m()),
    decreases s.len(),
{
    let e = (s[i]).0;
    let t = s.update(i, (e, r));
    if i == s.len() - 1 {
        assert(t.drop_last() =~= s.drop_last());
        assert(t.last() == (e, r));
    } else {
        assert(t.drop_last() =~= s.drop_last().update(i, (e, r)));
        assert((s.drop_last()[i]).0 == e);
        lemma_assoc_update(s.drop_last(), i, r);
        assert(t.last() == s.last());
        assert(s.last().0 != e);
    }
}

proof fn lemma_assoc_remove(s: Seq<(u64, Rect)>, i: int)
    requires
        distinct_keys(s),
        0 <= i < s.len(),
    ensures
        assoc_map(s.remove(i)) =~= assoc_map(s).remove((s[i]).0),
    decreases s.len(),
{
    let e = (s[i]).0;
    let t = s.remove(i);
    if i == s.len() - 1 {
        assert(t =~= s.drop_last());
        lemma_assoc_contains(s.drop_last(), e);
        assert(forall|j: int| 0 <= j < s.drop_last().len() ==> (#[trigger] s.drop_last()[j]).0 != e);
        assert(!assoc_map(s.drop_last()).contains_key(e));
    } else {
        assert(t.drop_last() =~= s.drop_last().remove(i));
        assert((s.drop_last()[i]).0 == e);
        lemma_assoc_remove(s.drop_last(), i);
        assert(t.last() == s.last());
        assert(s.last().0 != e);
    }
}

/// The spatial index. `cells` is an association list from grid coordinate
/// to the entities occupying that cell; `entities` records each entity's
/// last registered rectangle.
pub struct SpatialHash {
    cell_size: i64,
    cells: Vec<(i64, i64, Vec<u64>)>,
    entities: Vec<(u64, Rect)>,
}

spec fn cells_distinct(cells: Seq<(i64, i64, Vec<u64>)>) -> bool {
    forall|k: int, l: int| 0 <= k < l < cells.len() ==>
        !((#[trigger] cells[k]).0 == (#[trigger] cells[l]).0 && cells[k].1 == cells[l].1)
}

spec fn buckets_ok(cells: Seq<(i64, i64, Vec<u64>)>) -> bool {
    forall|k: int| 0 <= k < cells.len() ==> {
        &&& (#[trigger] cells[k]).2@.no_duplicates()
        &&& cells[k].2@.len() > 0
    }
}

/// Entity `e` appears in the bucket of cell `(cx, cy)`.
spec fn in_cell(cells: Seq<(i64, i64, Vec<u64>)>, cx: int, cy: int, e: u64) -> bool {
    exists|k: int| 0 <= k < cells.len()
        && (#[trigger] cells[k]).0 == cx && cells[k].1 == cy && cells[k].2@.contains(e)
}

/// Every bucket member is a recorded entity whose rectangle occupies that cell.
spec fn linked_sound(cells: Seq<(i64, i64, Vec<u64>)>, csize: int, m: Map<u64, RectM>) -> bool {
    forall|k: int, j: int| 0 <= k < cells.len() && 0 <= j < cells[k].2@.len() ==> {
        &&& m.contains_key(#[trigger] cells[k].2@[j])
        &&& covers(csize, m[cells[k].2@[j]], cells[k].0 as int, cells[k].1 as int)
    }
}

/// Every recorded entity appears in the bucket of every cell its rectangle
/// occupies.
spec fn linked_complete(cells: Seq<(i64, i64, Vec<u64>)>, csize: int, m: Map<u64, RectM>) -> bool {
    forall|e: u64, cx: int, cy: int| m.contains_key(e) && #[trigger] covers(csize, m[e], cx, cy)
        ==> in_cell(cells, cx, cy, e)
}

proof fn lemma_push_no_dup<A>(s: Seq<A>, v: A)
    requires
        s.no_duplicates(),
        !s.contains(v),
    ensures
        s.push(v).no_duplicates(),
{
    broadcast use vstd::seq_lib::lemma_seq_contains_after_push;

    assert forall|i: int, j: int|
        0 <= i < s.push(v).len() && 0 <= j < s.push(v).len() && i != j implies s.push(v)[i]
        != s.push(v)[j] by {
        if j == s.len() && i < s.len() {
            assert(s.contains(s[i]));
        }
        if i == s.len() && j < s.len() {
            assert(s.contains(s[j]));
        }
    }
}

proof fn lemma_remove_contains<A>(s: Seq<A>, p: int)
    requires
        s.no_duplicates(),
        0 <= p < s.len(),
    ensures
        forall|x: A| s.remove(p).contains(x) <==> (s.contains(x) && x != s[p]),
        s.remove(p).no_duplicates(),
{
    let t = s.remove(p);
    assert forall|x: A| t.contains(x) <==> (s.contains(x) && x != s[p]) by {
        if t.contains(x) {
            let i = choose|i: int| 0 <= i < t.len() && t[i] == x;
            if i < p {
                assert(s[i] == x);
            } else {
                assert(s[i + 1] == x);
            }
            assert(s.contains(x));
        }
        if s.contains(x) && x != s[p] {
            let i = choose|i: int| 0 <= i < s.len() && s[i] == x;
            if i < p {
                assert(t[i] == x);
            } else {
                assert(i > p);
                assert(t[i - 1] == x);
            }
            assert(t.contains(x));
        }
    }
    assert forall|i: int, j: int|
        0 <= i < t.len() && 0 <= j < t.len() && i != j implies t[i] != t[j] by {
        let si = if i < p { i } else { i + 1 };
        let sj = if j < p { j } else { j + 1 };
        assert(t[i] == s[si] && t[j] == s[sj]);
    }
}

/// Remove `e` from the bucket of cell `(cx, cy)` if present, dropping the
/// cell once its bucket is empty.
fn remove_entity_from_cell(cells: &mut Vec<(i64, i64, Vec<u64>)>, cx: i64, cy: i64, e: u64)
    requires
        cells_distinct(old(cells)@),
        buckets_ok(old(cells)@),
    ensures
        cells_distinct(final(cells)@),
        buckets_ok(final(cells)@),
        forall|a: int, b: int, x: u64|
            in_cell(final(cells)@, a, b, x) <==> (in_cell(old(cells)@, a, b, x) && !(a == cx as int
                && b == cy as int && x == e)),
{
    match find_cell(cells, cx, cy) {
        None => {
            proof {
                assert forall|a: int, b: int, x: u64|
                    in_cell(cells@, a, b, x) <==> (in_cell(cells@, a, b, x) && !(a == cx as int && b
                        == cy as int && x == e)) by {
                    if in_cell(cells@, a, b, x) && a == cx as int && b == cy as int {
                        let w = choose|w: int|
                            0 <= w < cells@.len() && (#[trigger] cells@[w]).0 == a && cells@[w].1
                                == b && cells@[w].2@.contains(x);
                        assert(false);
                    }
                }
            }
        },
        Some(k) => {
            let ghost prev = cells@;
            match find_in_bucket(&cells[k].2, e) {
                None => {
                    proof {
                        assert forall|a: int, b: int, x: u64|
                            in_cell(prev, a, b, x) <==> (in_cell(prev, a, b, x) && !(a == cx as int
                                && b == cy as int && x == e)) by {
                            if in_cell(prev, a, b, x) && a == cx as int && b == cy as int && x
                                == e {
                                let w = choose|w: int|
                                    0 <= w < prev.len() && (#[trigger] prev[w]).0 == a
                                        && prev[w].1 == b && prev[w].2@.contains(x);
                                assert(w == k);
                                assert(false);
                            }
                        }
                    }
                },
                Some(p) => {
                    let ghost ob = cells@[k as int].2@;
                    proof {
                        lemma_remove_contains(ob, p as int);
                    }
                    cells[k].2.remove(p);
                    let ghost mid = cells@;
                    proof {
                        assert(mid[k as int].2@ =~= ob.remove(p as int));
                        assert forall|a: int, b: int, x: u64|
                            in_cell(mid, a, b, x) <==> (in_cell(prev, a, b, x) && !(a == cx as int
                                && b == cy as int && x == e)) by {
                            if in_cell(mid, a, b, x) {
                                let w = choose|w: int|
                                    0 <= w < mid.len() && (#[trigger] mid[w]).0 == a && mid[w].1
                                        == b && mid[w].2@.contains(x);
                                if w == k {
                                    assert(ob.contains(x) && x != e);
                                    assert(in_cell(prev, a, b, x));
                                } else {
                                    assert(prev[w] == mid[w]);
                                    assert(in_cell(prev, a, b, x));
                                    if a == cx as int && b == cy as int {
                                        assert(false);
                                    }
                                }
                            }
                            if in_cell(prev, a, b, x) && !(a == cx as int && b == cy as int && x
                                == e) {
                                let w = choose|w: int|
                                    0 <= w < prev.len() && (#[trigger] prev[w]).0 == a
                                        && prev[w].1 == b && prev[w].2@.contains(x);
                                if w == k {
                                    assert(x != e);
                                    assert(mid[w].2@.contains(x));
                                    assert(in_cell(mid, a, b, x));
                                } else {
                                    assert(mid[w] == prev[w]);
                                    assert(in_cell(mid, a, b, x));
                                }
                            }
                        }
                    }
                    if cells[k].2.len() == 0 {
                        cells.remove(k);
                        proof {
                            let now = cells@;
                            assert(now =~= mid.remove(k as int));
                            assert forall|a: int, b: int, x: u64|
                                in_cell(now, a, b, x) <==> in_cell(mid, a, b, x) by {
                                if in_cell(now, a, b, x) {
                                    let w = choose|w: int|
                                        0 <= w < now.len() && (#[trigger] now[w]).0 == a
                                            && now[w].1 == b && now[w].2@.contains(x);
                                    if w < k {
                                        assert(mid[w] == now[w]);
                                    } else {
                                        assert(mid[w + 1] == now[w]);
                                    }
                                    assert(in_cell(mid, a, b, x));
                                }
                                if in_cell(mid, a, b, x) {
                                    let w = choose|w: int|
                                        0 <= w < mid.len() && (#[trigger] mid[w]).0 == a
                                            && mid[w].1 == b && mid[w].2@.contains(x);
                                    assert(w != k);
                                    if w < k {
                                        assert(now[w] == mid[w]);
                                        assert(in_cell(now, a, b, x));
                                    } else {
                                        assert(now[w - 1] == mid[w]);
                                        assert(in_cell(now, a, b, x));
                                    }
                                }
                            }
                            assert forall|u: int, v: int|
                                0 <= u < now.len() && 0 <= v < now.len() && u != v implies !((
                            #[trigger] now[u]).0 == (#[trigger] now[v]).0 && now[u].1
                                == now[v].1) by {
                                let mu = if u < k { u } else { u + 1 };
                                let mv = if v < k { v } else { v + 1 };
                                assert(now[u] == mid[mu] && now[v] == mid[mv]);
                                assert(mid[mu].0 == prev[mu].0 && mid[mu].1 == prev[mu].1);
                                assert(mid[mv].0 == prev[mv].0 && mid[mv].1 == prev[mv].1);
                            }
                            assert forall|w: int| 0 <= w < now.len() implies {
                                &&& (#[trigger] now[w]).2@.no_duplicates()
                                &&& now[w].2@.len() > 0
                            } by {
                                let mw = if w < k { w } else { w + 1 };
                                assert(now[w] == mid[mw]);
                                assert(mid[mw].2@ == prev[mw].2@);
                            }
                        }
                    } else {
                        proof {
                            assert forall|u: int, v: int|
                                0 <= u < mid.len() && 0 <= v < mid.len() && u != v implies !((
                            #[trigger] mid[u]).0 == (#[trigger] mid[v]).0 && mid[u].1
                                == mid[v].1) by {
                                assert(mid[u].0 == prev[u].0 && mid[u].1 == prev[u].1);
                                assert(mid[v].0 == prev[v].0 && mid[v].1 == prev[v].1);
                            }
                            assert forall|w: int| 0 <= w < mid.len() implies {
                                &&& (#[trigger] mid[w]).2@.no_duplicates()
                                &&& mid[w].2@.len() > 0
                            } by {
                                if w != k {
                                    assert(mid[w].2@ == prev[w].2@);
                                }
                            }
                        }
                    }
                },
            }
        },
    }
}

/// A bucket member is registered, and its rectangle occupies the cell.
proof fn lemma_sound_in_cell(
    cells: Seq<(i64, i64, Vec<u64>)>,
    csize: int,
    m: Map<u64, RectM>,
    a: int,
    b: int,
    x: u64,
)
    requires
        linked_sound(cells, csize, m),
        in_cell(cells, a, b, x),
    ensures
        m.contains_key(x),
        covers(csize, m[x], a, b),
{
    let k = choose|k: int|
        0 <= k < cells.len() && (#[trigger] cells[k]).0 == a && cells[k].1 == b
            && cells[k].2@.contains(x);
    let j = choose|j: int| 0 <= j < cells[k].2@.len() && cells[k].2@[j] == x;
    assert(m.contains_key(cells[k].2@[j]));
}

/// Cells processed so far by a row-major walk of the cell range
/// `[minx, maxx] x [miny, ..]` that currently stands at `(cx_cur, cy_cur)`.
spec fn before_cell(minx: int, maxx: int, miny: int, cy_cur: int, cx_cur: int, cx: int, cy: int) -> bool {
    ||| (miny <= cy < cy_cur && minx <= cx <= maxx)
    ||| (cy == cy_cur && minx <= cx < cx_cur)
}

/// Index of the bucket for cell `(cx, cy)`, if that cell is occupied.
fn find_cell(cells: &Vec<(i64, i64, Vec<u64>)>, cx: i64, cy: i64) -> (r: Option<usize>)
    ensures
        match r {
            Some(k) => k < cells@.len() && cells@[k as int].0 == cx && cells@[k as int].1 == cy,
            None => forall|k: int|
                0 <= k < cells@.len() ==> !((#[trigger] cells@[k]).0 == cx && cells@[k].1 == cy),
        },
{
    let mut k: usize = 0;
    while k < cells.len()
        invariant
            k <= cells@.len(),
            forall|i: int| 0 <= i < k ==> !((#[trigger] cells@[i]).0 == cx && cells@[i].1 == cy),
        decreases cells@.len() - k,
    {
        if cells[k].0 == cx && cells[k].1 == cy {
            return Some(k);
        }
        k = k + 1;
    }
    None
}

/// Index of `e` in a bucket, if present.
fn find_in_bucket(bucket: &Vec<u64>, e: u64) -> (r: Option<usize>)
    ensures
        match r {
            Some(p) => p < bucket@.len() && bucket@[p as int] == e,
            None => !bucket@.contains(e),
        },
{
    let mut p: usize = 0;
    while p < bucket.len()
        invariant
            p <= bucket@.len(),
            forall|i: int| 0 <= i < p ==> bucket@[i] != e,
        decreases bucket@.len() - p,
    {
        if bucket[p] == e {
            return Some(p);
        }
        p = p + 1;
    }
    proof {
        assert forall|i: int| 0 <= i < bucket@.len() implies bucket@[i] != e by {}
    }
    None
}

/// Append `e` to the bucket of cell `(cx, cy)`, creating the cell if absent.
fn add_entity_to_cell(cells: &mut Vec<(i64, i64, Vec<u64>)>, cx: i64, cy: i64, e: u64)
    requires
        cells_distinct(old(cells)@),
        buckets_ok(old(cells)@),
        !in_cell(old(cells)@, cx as int, cy as int, e),
    ensures
        cells_distinct(final(cells)@),
        buckets_ok(final(cells)@),
        forall|a: int, b: int, x: u64|
            in_cell(final(cells)@, a, b, x) <==> (in_cell(old(cells)@, a, b, x) || (a == cx as int
                && b == cy as int && x == e)),
{
    broadcast use vstd::seq_lib::lemma_seq_contains_after_push;

    match find_cell(cells, cx, cy) {
        Some(k) => {
            let ghost prev = cells@;
            let ghost old_bucket = cells@[k as int].2@;
            proof {
                assert(!old_bucket.contains(e)) by {
                    if old_bucket.contains(e) {
                        assert(in_cell(prev, cx as int, cy as int, e));
                    }
                }
            }
            cells[k].2.push(e);
            proof {
                let now = cells@;
                assert(now[k as int].2@ =~= old_bucket.push(e));
                lemma_push_no_dup(old_bucket, e);
                assert forall|a: int, b: int, x: u64|
                    in_cell(now, a, b, x) <==> (in_cell(prev, a, b, x) || (a == cx as int && b
                        == cy as int && x == e)) by {
                    if in_cell(now, a, b, x) {
                        let w = choose|w: int|
                            0 <= w < now.len() && (#[trigger] now[w]).0 == a && now[w].1 == b
                                && now[w].2@.contains(x);
                        if w == k {
                            if x == e {
                            } else {
                                assert(old_bucket.contains(x));
                                assert(in_cell(prev, a, b, x));
                            }
                        } else {
                            assert(prev[w] == now[w]);
                            assert(in_cell(prev, a, b, x));
                        }
                    }
                    if in_cell(prev, a, b, x) {
                        let w = choose|w: int|
                            0 <= w < prev.len() && (#[trigger] prev[w]).0 == a && prev[w].1 == b
                                && prev[w].2@.contains(x);
                        if w == k {
                            assert(now[w].2@.contains(x));
                            assert(in_cell(now, a, b, x));
                        } else {
                            assert(now[w] == prev[w]);
                            assert(in_cell(now, a, b, x));
                        }
                    }
                    if a == cx as int && b == cy as int && x == e {
                        assert(now[k as int].2@.contains(e));
                        assert(in_cell(now, a, b, x));
                    }
                }
            }
        },
        None => {
            let ghost prev = cells@;
            let mut bucket: Vec<u64> = Vec::new();
            bucket.push(e);
            let ghost new_bucket = bucket@;
            cells.push((cx, cy, bucket));
            proof {
                let now = cells@;
                assert(new_bucket =~= Seq::empty().push(e));
                assert(new_bucket.contains(e));
                assert forall|a: int, b: int, x: u64|
                    in_cell(now, a, b, x) <==> (in_cell(prev, a, b, x) || (a == cx as int && b
                        == cy as int && x == e)) by {
                    if in_cell(now, a, b, x) {
                        let w = choose|w: int|
                            0 <= w < now.len() && (#[trigger] now[w]).0 == a && now[w].1 == b
                                && now[w].2@.contains(x);
                        if w == prev.len() {
                            assert(new_bucket[0] == e);
                            assert(x == e);
                        } else {
                            assert(prev[w] == now[w]);
                            assert(in_cell(prev, a, b, x));
                        }
                    }
                    if in_cell(prev, a, b, x) {
                        let w = choose|w: int|
                            0 <= w < prev.len() && (#[trigger] prev[w]).0 == a && prev[w].1 == b
                                && prev[w].2@.contains(x);
                        assert(now[w] == prev[w]);
                        assert(in_cell(now, a, b, x));
                    }
                    if a == cx as int && b == cy as int && x == e {
                        assert(now[prev.len() as int].2@.contains(e));
                        assert(in_cell(now, a, b, x));
                    }
                }
            }
        },
    }
}

impl SpatialHash {
    /// The grid cell size this index was constructed with.
    pub closed spec fn cs(self) -> int {
        self.cell_size as int
    }

    /// Abstract state: each registered entity's last recorded rectangle.
    pub closed spec fn rects(self) -> Map<u64, RectM> {
        assoc_map(self.entities@)
    }

    /// Internal invariant: rectangles are bounded, registrations are unique,
    /// buckets are duplicate-free and non-empty (empty cells are removed),
    /// and bucket membership agrees exactly with cell occupancy.
    pub closed spec fn wf(self) -> bool {
        &&& 1 <= self.cell_size <= CELL_SIZE_LIMIT
        &&& distinct_keys(self.entities@)
        &&& forall|i: int| 0 <= i < self.entities@.len() ==> rect_wf((#[trigger] self.entities@[i]).1.m())
        &&& cells_distinct(self.cells@)
        &&& buckets_ok(self.cells@)
        &&& linked_sound(self.cells@, self.cell_size as int, assoc_map(self.entities@))
        &&& linked_complete(self.cells@, self.cell_size as int, assoc_map(self.entities@))
    }

    /// Every rectangle recorded in a well-formed index is itself bounded.
    pub proof fn lemma_rects_wf(self)
        requires
            self.wf(),
        ensures
            forall|e: u64| self.rects().contains_key(e) ==> rect_wf(#[trigger] self.rects()[e]),
            1 <= self.cs() <= CELL_SIZE_LIMIT,
    {
        assert forall|e: u64| self.rects().contains_key(e) implies rect_wf(#[trigger] self.rects()[e]) by {
            lemma_assoc_contains(self.entities@, e);
            let i = choose|i: int| 0 <= i < self.entities@.len() && (#[trigger] self.entities@[i]).0 == e;
            lemma_assoc_at(self.entities@, i);
        }
    }

    /// A fresh, empty index with the given cell size.
    pub fn new(cell_size: i64) -> (s: SpatialHash)
        requires
            1 <= cell_size <= CELL_SIZE_LIMIT,
        ensures
            s.wf(),
            s.cs() == cell_size,
            s.rects() == Map::<u64, RectM>::empty(),
    {
        SpatialHash { cell_size, cells: Vec::new(), entities: Vec::new() }
    }

    /// Grid coordinates of the cell containing the point `(x, y)`.
    pub fn cell_coords(&self, x: i64, y: i64) -> (c: (i64, i64))
        requires
            self.wf(),
            -RECT_BOUND <= x <= RECT_BOUND,
            -RECT_BOUND <= y <= RECT_BOUND,
        ensures
            c.0 == cell_of(self.cs(), x as int),
            c.1 == cell_of(self.cs(), y as int),
    {
        (div_floor(x, self.cell_size), div_floor(y, self.cell_size))
    }

    /// All grid cells the rectangle occupies, in row-major order. Degenerate
    /// rectangles (zero width or height) still occupy at least one cell.
    pub fn cell_coords_rect(&self, rect: Rect) -> (out: Vec<(i64, i64)>)
        requires
            self.wf(),
            rect_wf(rect.m()),
        ensures
            out@.no_duplicates(),
            forall|c: (i64, i64)| out@.contains(c) <==> covers(self.cs(), rect.m(), c.0 as int, c.1 as int),
            out@.len() >= 1,
    {
        let minx = div_floor(rect.x, self.cell_size);
        let maxx = div_floor(rect.x + rect.width, self.cell_size);
        let miny = div_floor(rect.y, self.cell_size);
        let maxy = div_floor(rect.y + rect.height, self.cell_size);
        proof {
            vstd::arithmetic::div_mod::lemma_div_is_ordered(rect.x as int, rect.x + rect.width, self.cs());
            vstd::arithmetic::div_mod::lemma_div_is_ordered(rect.y as int, rect.y + rect.height, self.cs());
        }
        let mut out: Vec<(i64, i64)> = Vec::new();
        let mut cy: i64 = miny;
        while cy <= maxy
            invariant
                miny <= cy <= maxy + 1,
                minx <= maxx,
                minx == cell_of(self.cs(), rect.m().x),
                maxx == cell_of(self.cs(), rect.m().x + rect.m().width),
                miny == cell_of(self.cs(), rect.m().y),
                maxy == cell_of(self.cs(), rect.m().y + rect.m().height),
                -CELL_ARG_BOUND <= minx <= CELL_ARG_BOUND,
                -CELL_ARG_BOUND <= maxx <= CELL_ARG_BOUND,
                -CELL_ARG_BOUND <= maxy <= CELL_ARG_BOUND,
                out@.no_duplicates(),
                forall|c: (i64, i64)| out@.contains(c) <==> before_cell(
                    minx as int, maxx as int, miny as int, cy as int, minx as int, c.0 as int, c.1 as int),
            decreases maxy + 1 - cy,
        {
            let mut cx: i64 = minx;
            while cx <= maxx
                invariant
                    minx <= cx <= maxx + 1,
                    miny <= cy <= maxy,
                    -CELL_ARG_BOUND <= minx <= CELL_ARG_BOUND,
                    -CELL_ARG_BOUND <= maxx <= CELL_ARG_BOUND,
                    out@.no_duplicates(),
                    forall|c: (i64, i64)| out@.contains(c) <==> before_cell(
                        minx as int, maxx as int, miny as int, cy as int, cx as int, c.0 as int, c.1 as int),
                decreases maxx + 1 - cx,
            {
                proof {
                    assert(!out@.contains((cx, cy)));
                }
                let ghost prev = out@;
                out.push((cx, cy));
                proof {
                    broadcast use vstd::seq_lib::lemma_seq_contains_after_push;

                    lemma_push_no_dup(prev, (cx, cy));
                    assert(forall|c: (i64, i64)| out@.contains(c) <==> (prev.contains(c) || c == (
                    cx,
                    cy,
                    )));
                }
                cx = cx + 1;
            }
            cy = cy + 1;
        }
        proof {
            assert(out@.contains((minx, miny)));
            assert forall|c: (i64, i64)| out@.contains(c) <==>
                covers(self.cs(), rect.m(), c.0 as int, c.1 as int) by {}
        }
        out
    }

    /// Index of an entity's registration record, if it has one.
    fn find_entity(&self, entity: u64) -> (r: Option<usize>)
        requires
            self.wf(),
        ensures
            match r {
                Some(i) => {
                    &&& i < self.entities@.len()
                    &&& self.entities@[i as int].0 == entity
                    &&& self.rects().contains_key(entity)
                    &&& self.rects()[entity] == self.entities@[i as int].1.m()
                },
                None => !self.rects().contains_key(entity),
            },
    {
        let mut i: usize = 0;
        while i < self.entities.len()
            invariant
                self.wf(),
                i <= self.entities@.len(),
                forall|j: int| 0 <= j < i ==> (#[trigger] self.entities@[j]).0 != entity,
            decreases self.entities@.len() - i,
        {
            if self.entities[i].0 == entity {
                proof {
                    lemma_assoc_at(self.entities@, i as int);
                }
                return Some(i);
            }
            i = i + 1;
        }
        proof {
            lemma_assoc_contains(self.entities@, entity);
        }
        None
    }

    /// Re-register an entity under a new rectangle. When the new rectangle
    /// occupies exactly the cells of the recorded one, only the record
    /// changes; otherwise the entity leaves every old cell (now-empty cells
    /// are deleted) and enters every new one. An unknown entity is inserted.
    pub fn update(&mut self, entity: u64, new_rect: Rect)
        requires
            old(self).wf(),
            rect_wf(new_rect.m()),
        ensures
            final(self).wf(),
            final(self).cs() == old(self).cs(),
            final(self).rects() == old(self).rects().insert(entity, new_rect.m()),
    {
        let ghost m = old(self).rects();
        let found = self.find_entity(entity);
        match found {
            None => {
                self.insert(entity, new_rect);
            },
            Some(i) => {
                let old_rect = self.entities[i].1;
                proof {
                    assert(rect_wf(self.entities@[i as int].1.m()));
                }
                let ominx = div_floor(old_rect.x, self.cell_size);
                let omaxx = div_floor(old_rect.x + old_rect.width, self.cell_size);
                let ominy = div_floor(old_rect.y, self.cell_size);
                let omaxy = div_floor(old_rect.y + old_rect.height, self.cell_size);
                let nminx = div_floor(new_rect.x, self.cell_size);
                let nmaxx = div_floor(new_rect.x + new_rect.width, self.cell_size);
                let nminy = div_floor(new_rect.y, self.cell_size);
                let nmaxy = div_floor(new_rect.y + new_rect.height, self.cell_size);
                if ominx == nminx && omaxx == nmaxx && ominy == nminy && omaxy == nmaxy {
                    // Same cell set: record the rectangle and leave every
                    // bucket as it stands.
                    self.entities[i] = (entity, new_rect);
                    proof {
                        let olds = old(self).entities@;
                        assert(self.entities@ =~= olds.update(i as int, (entity, new_rect)));
                        lemma_assoc_update(olds, i as int, new_rect);
                        let m2 = m.insert(entity, new_rect.m());
                        assert(self.rects() =~= m2);
                        assert forall|a: int, b: int|
                            covers(self.cs(), new_rect.m(), a, b) <==> #[trigger] covers(
                                self.cs(),
                                old_rect.m(),
                                a,
                                b,
                            ) by {}
                        assert forall|u: int, v: int|
                            0 <= u < v < self.entities@.len() implies (
                        #[trigger] self.entities@[u]).0 != (#[trigger] self.entities@[v]).0 by {
                            assert((olds[u]).0 == self.entities@[u].0);
                            assert((olds[v]).0 == self.entities@[v].0);
                        }
                        assert forall|j: int|
                            0 <= j < self.entities@.len() implies rect_wf(
                            (#[trigger] self.entities@[j]).1.m(),
                        ) by {
                            if j != i {
                                assert(rect_wf((olds[j]).1.m()));
                            }
                        }
                        assert(linked_sound(self.cells@, self.cs(), m2)) by {
                            assert forall|k: int, j: int|
                                0 <= k < self.cells@.len() && 0 <= j
                                    < self.cells@[k].2@.len() implies {
                                &&& m2.contains_key(#[trigger] self.cells@[k].2@[j])
                                &&& covers(
                                    self.cs(),
                                    m2[self.cells@[k].2@[j]],
                                    self.cells@[k].0 as int,
                                    self.cells@[k].1 as int,
                                )
                            } by {
                                let x = self.cells@[k].2@[j];
                                assert(m.contains_key(x) && covers(
                                    self.cs(),
                                    m[x],
                                    self.cells@[k].0 as int,
                                    self.cells@[k].1 as int,
                                ));
                                if x == entity {
                                    assert(m[entity] == old_rect.m());
                                }
                            }
                        }
                        assert(linked_complete(self.cells@, self.cs(), m2)) by {
                            assert forall|e: u64, a: int, b: int|
                                m2.contains_key(e) && #[trigger] covers(
                                    self.cs(),
                                    m2[e],
                                    a,
                                    b,
                                ) implies in_cell(self.cells@, a, b, e) by {
                                if e == entity {
                                    assert(covers(self.cs(), old_rect.m(), a, b));
                                    assert(m.contains_key(entity) && covers(
                                        self.cs(),
                                        m[entity],
                                        a,
                                        b,
                                    ));
                                } else {
                                    assert(m.contains_key(e) && covers(self.cs(), m[e], a, b));
                                }
                            }
                        }
                    }
                    return ;
                }
                // Different cell set: leave every old cell, drop the record,
                // then insert afresh.
                let mut cy: i64 = ominy;
                proof {
                    vstd::arithmetic::div_mod::lemma_div_is_ordered(
                        old_rect.x as int,
                        old_rect.x + old_rect.width,
                        self.cs(),
                    );
                    vstd::arithmetic::div_mod::lemma_div_is_ordered(
                        old_rect.y as int,
                        old_rect.y + old_rect.height,
                        self.cs(),
                    );
                }
                while cy <= omaxy
                    invariant
                        old(self).wf(),
                        m == old(self).rects(),
                        m.contains_key(entity),
                        m[entity] == old_rect.m(),
                        self.cell_size == old(self).cell_size,
                        self.entities@ == old(self).entities@,
                        cells_distinct(self.cells@),
                        buckets_ok(self.cells@),
                        ominy <= cy <= omaxy + 1,
                        ominx <= omaxx,
                        ominx == cell_of(self.cs(), old_rect.m().x),
                        omaxx == cell_of(self.cs(), old_rect.m().x + old_rect.m().width),
                        ominy == cell_of(self.cs(), old_rect.m().y),
                        omaxy == cell_of(self.cs(), old_rect.m().y + old_rect.m().height),
                        -CELL_ARG_BOUND <= ominx <= CELL_ARG_BOUND,
                        -CELL_ARG_BOUND <= omaxx <= CELL_ARG_BOUND,
                        -CELL_ARG_BOUND <= omaxy <= CELL_ARG_BOUND,
                        forall|a: int, b: int, x: u64|
                            in_cell(self.cells@, a, b, x) <==> (in_cell(old(self).cells@, a, b, x)
                                && !(x == entity && before_cell(
                                ominx as int,
                                omaxx as int,
                                ominy as int,
                                cy as int,
                                ominx as int,
                                a,
                                b,
                            ))),
                    decreases omaxy + 1 - cy,
                {
                    let mut cx: i64 = ominx;
                    while cx <= omaxx
                        invariant
                            old(self).wf(),
                            m == old(self).rects(),
                            self.cell_size == old(self).cell_size,
                            self.entities@ == old(self).entities@,
                            cells_distinct(self.cells@),
                            buckets_ok(self.cells@),
                            ominx <= cx <= omaxx + 1,
                            ominy <= cy <= omaxy,
                            -CELL_ARG_BOUND <= ominx <= CELL_ARG_BOUND,
                            -CELL_ARG_BOUND <= omaxx <= CELL_ARG_BOUND,
                            forall|a: int, b: int, x: u64|
                                in_cell(self.cells@, a, b, x) <==> (in_cell(
                                    old(self).cells@,
                                    a,
                                    b,
                                    x,
                                ) && !(x == entity && before_cell(
                                    ominx as int,
                                    omaxx as int,
                                    ominy as int,
                                    cy as int,
                                    cx as int,
                                    a,
                                    b,
                                ))),
                        decreases omaxx + 1 - cx,
                    {
                        remove_entity_from_cell(&mut self.cells, cx, cy, entity);
                        cx = cx + 1;
                    }
                    cy = cy + 1;
                }
                proof {
                    // The entity now stands in no bucket at all.
                    assert forall|a: int, b: int| !in_cell(self.cells@, a, b, entity) by {
                        if in_cell(old(self).cells@, a, b, entity) {
                            lemma_sound_in_cell(old(self).cells@, old(self).cs(), m, a, b, entity);
                            assert(covers(old(self).cs(), old_rect.m(), a, b));
                        }
                    }
                }
                let ghost olds = self.entities@;
                self.entities.remove(i);
                proof {
                    lemma_assoc_remove(olds, i as int);
                    let mmid = m.remove(entity);
                    assert(self.rects() =~= mmid);
                    assert forall|u: int, v: int|
                        0 <= u < v < self.entities@.len() implies (
                    #[trigger] self.entities@[u]).0 != (#[trigger] self.entities@[v]).0 by {
                        let su = if u < i { u } else { u + 1 };
                        let sv = if v < i { v } else { v + 1 };
                        assert(self.entities@[u] == olds[su] && self.entities@[v] == olds[sv]);
                    }
                    assert forall|j: int|
                        0 <= j < self.entities@.len() implies rect_wf(
                        (#[trigger] self.entities@[j]).1.m(),
                    ) by {
                        let sj = if j < i { j } else { j + 1 };
                        assert(self.entities@[j] == olds[sj]);
                        assert(rect_wf((olds[sj]).1.m()));
                    }
                    assert(linked_sound(self.cells@, self.cs(), mmid)) by {
                        assert forall|k: int, j: int|
                            0 <= k < self.cells@.len() && 0 <= j < self.cells@[k].2@.len() implies {
                            &&& mmid.contains_key(#[trigger] self.cells@[k].2@[j])
                            &&& covers(
                                self.cs(),
                                mmid[self.cells@[k].2@[j]],
                                self.cells@[k].0 as int,
                                self.cells@[k].1 as int,
                            )
                        } by {
                            let x = self.cells@[k].2@[j];
                            let a = self.cells@[k].0 as int;
                            let b = self.cells@[k].1 as int;
                            assert(self.cells@[k].2@.contains(x));
                            assert(in_cell(self.cells@, a, b, x));
                            assert(x != entity);
                            assert(in_cell(old(self).cells@, a, b, x));
                            lemma_sound_in_cell(old(self).cells@, old(self).cs(), m, a, b, x);
                        }
                    }
                    assert(linked_complete(self.cells@, self.cs(), mmid)) by {
                        assert forall|e: u64, a: int, b: int|
                            mmid.contains_key(e) && #[trigger] covers(
                                self.cs(),
                                mmid[e],
                                a,
                                b,
                            ) implies in_cell(self.cells@, a, b, e) by {
                            assert(e != entity);
                            assert(m.contains_key(e) && covers(old(self).cs(), m[e], a, b));
                            assert(in_cell(old(self).cells@, a, b, e));
                        }
                    }
                    assert(self.wf());
                }
                self.insert(entity, new_rect);
                proof {
                    assert(self.rects() =~= m.insert(entity, new_rect.m()));
                }
            },
        }
    }

    /// Entities registered in any cell the query rectangle occupies, each
    /// one at most once, however many occupied cells it shares with the
    /// query.
    pub fn query(&self, query_rect: Rect) -> (found: Vec<u64>)
        requires
            self.wf(),
            rect_wf(query_rect.m()),
        ensures
            found@.no_duplicates(),
            forall|e: u64|
                found@.contains(e) <==> query_model(self.rects(), self.cs(), query_rect.m())
                    .contains(e),
    {
        broadcast use vstd::seq_lib::lemma_seq_contains_after_push;

        let ghost m = self.rects();
        let ghost q = query_rect.m();
        let minx = div_floor(query_rect.x, self.cell_size);
        let maxx = div_floor(query_rect.x + query_rect.width, self.cell_size);
        let miny = div_floor(query_rect.y, self.cell_size);
        let maxy = div_floor(query_rect.y + query_rect.height, self.cell_size);
        proof {
            vstd::arithmetic::div_mod::lemma_div_is_ordered(
                query_rect.x as int,
                query_rect.x + query_rect.width,
                self.cs(),
            );
            vstd::arithmetic::div_mod::lemma_div_is_ordered(
                query_rect.y as int,
                query_rect.y + query_rect.height,
                self.cs(),
            );
        }
        let mut found: Vec<u64> = Vec::new();
        let mut cy: i64 = miny;
        while cy <= maxy
            invariant
                self.wf(),
                m == self.rects(),
                q == query_rect.m(),
                rect_wf(q),
                miny <= cy <= maxy + 1,
                minx <= maxx,
                minx == cell_of(self.cs(), q.x),
                maxx == cell_of(self.cs(), q.x + q.width),
                miny == cell_of(self.cs(), q.y),
                maxy == cell_of(self.cs(), q.y + q.height),
                -CELL_ARG_BOUND <= minx <= CELL_ARG_BOUND,
                -CELL_ARG_BOUND <= maxx <= CELL_ARG_BOUND,
                -CELL_ARG_BOUND <= maxy <= CELL_ARG_BOUND,
                found@.no_duplicates(),
                forall|e: u64|
                    found@.contains(e) ==> #[trigger] query_model(m, self.cs(), q).contains(e),
                forall|e: u64, a: int, b: int|
                    before_cell(minx as int, maxx as int, miny as int, cy as int, minx as int, a, b)
                        && #[trigger] in_cell(self.cells@, a, b, e) ==> found@.contains(e),
            decreases maxy + 1 - cy,
        {
            let mut cx: i64 = minx;
            while cx <= maxx
                invariant
                    self.wf(),
                    m == self.rects(),
                    q == query_rect.m(),
                    rect_wf(q),
                    minx <= cx <= maxx + 1,
                    miny <= cy <= maxy,
                    minx == cell_of(self.cs(), q.x),
                    maxx == cell_of(self.cs(), q.x + q.width),
                    miny == cell_of(self.cs(), q.y),
                    maxy == cell_of(self.cs(), q.y + q.height),
                    -CELL_ARG_BOUND <= minx <= CELL_ARG_BOUND,
                    -CELL_ARG_BOUND <= maxx <= CELL_ARG_BOUND,
                    found@.no_duplicates(),
                    forall|e: u64|
                        found@.contains(e) ==> #[trigger] query_model(m, self.cs(), q).contains(e),
                    forall|e: u64, a: int, b: int|
                        before_cell(
                            minx as int,
                            maxx as int,
                            miny as int,
                            cy as int,
                            cx as int,
                            a,
                            b,
                        ) && #[trigger] in_cell(self.cells@, a, b, e) ==> found@.contains(e),
                decreases maxx + 1 - cx,
            {
                match find_cell(&self.cells, cx, cy) {
                    None => {
                        proof {
                            assert forall|e: u64, a: int, b: int|
                                before_cell(
                                    minx as int,
                                    maxx as int,
                                    miny as int,
                                    cy as int,
                                    cx + 1 as int,
                                    a,
                                    b,
                                ) && #[trigger] in_cell(self.cells@, a, b, e) implies found@
                                .contains(e) by {
                                if a == cx as int && b == cy as int {
                                    let w = choose|w: int|
                                        0 <= w < self.cells@.len() && (
                                        #[trigger] self.cells@[w]).0 == a && self.cells@[w].1 == b
                                            && self.cells@[w].2@.contains(e);
                                    assert(false);
                                }
                            }
                        }
                    },
                    Some(k) => {
                        let ghost bucket = self.cells@[k as int].2@;
                        let mut j: usize = 0;
                        while j < self.cells[k].2.len()
                            invariant
                                self.wf(),
                                m == self.rects(),
                                q == query_rect.m(),
                                rect_wf(q),
                                k < self.cells@.len(),
                                self.cells@[k as int].0 == cx,
                                self.cells@[k as int].1 == cy,
                                bucket == self.cells@[k as int].2@,
                                j <= bucket.len(),
                                minx <= cx <= maxx,
                                miny <= cy <= maxy,
                                minx == cell_of(self.cs(), q.x),
                                maxx == cell_of(self.cs(), q.x + q.width),
                                miny == cell_of(self.cs(), q.y),
                                maxy == cell_of(self.cs(), q.y + q.height),
                                found@.no_duplicates(),
                                forall|e: u64|
                                    found@.contains(e) ==> #[trigger] query_model(
                                        m,
                                        self.cs(),
                                        q,
                                    ).contains(e),
                                forall|e: u64, a: int, b: int|
                                    before_cell(
                                        minx as int,
                                        maxx as int,
                                        miny as int,
                                        cy as int,
                                        cx as int,
                                        a,
                                        b,
                                    ) && #[trigger] in_cell(self.cells@, a, b, e) ==> found@
                                        .contains(e),
                                forall|jj: int| 0 <= jj < j ==> found@.contains(#[trigger] bucket[jj]),
                            decreases bucket.len() - j,
                        {
                            let e = self.cells[k].2[j];
                            proof {
                                assert(bucket.contains(e));
                                assert(in_cell(self.cells@, cx as int, cy as int, e));
                                lemma_sound_in_cell(
                                    self.cells@,
                                    self.cs(),
                                    m,
                                    cx as int,
                                    cy as int,
                                    e,
                                );
                                self.lemma_rects_wf();
                                lemma_touch_shared_cell(self.cs(), m[e], q);
                                let w = ((cx as int), (cy as int));
                                assert(covers(self.cs(), m[e], w.0, w.1) && covers(
                                    self.cs(),
                                    q,
                                    w.0,
                                    w.1,
                                ));
                                assert(query_model(m, self.cs(), q).contains(e));
                            }
                            let already = find_in_bucket(&found, e);
                            match already {
                                Some(_) => {
                                },
                                None => {
                                    let ghost prevf = found@;
                                    proof {
                                        lemma_push_no_dup(found@, e);
                                    }
                                    found.push(e);
                                    proof {
                                        broadcast use vstd::seq_lib::lemma_seq_contains_after_push;

                                        assert(forall|x: u64|
                                            found@.contains(x) <==> (prevf.contains(x) || x == e));
                                    }
                                },
                            }
                            j = j + 1;
                        }
                        proof {
                            assert forall|e: u64, a: int, b: int|
                                before_cell(
                                    minx as int,
                                    maxx as int,
                                    miny as int,
                                    cy as int,
                                    cx + 1 as int,
                                    a,
                                    b,
                                ) && #[trigger] in_cell(self.cells@, a, b, e) implies found@
                                .contains(e) by {
                                if a == cx as int && b == cy as int {
                                    let w = choose|w: int|
                                        0 <= w < self.cells@.len() && (
                                        #[trigger] self.cells@[w]).0 == a && self.cells@[w].1 == b
                                            && self.cells@[w].2@.contains(e);
                                    assert(w == k);
                                    let jj = choose|jj: int|
                                        0 <= jj < bucket.len() && bucket[jj] == e;
                                    assert(found@.contains(bucket[jj]));
                                }
                            }
                        }
                    },
                }
                cx = cx + 1;
            }
            cy = cy + 1;
        }
        proof {
            assert forall|e: u64|
                found@.contains(e) <==> #[trigger] query_model(m, self.cs(), q).contains(e) by {
                if query_model(m, self.cs(), q).contains(e) {
                    self.lemma_rects_wf();
                    lemma_touch_shared_cell(self.cs(), m[e], q);
                    let c = choose|c: (int, int)|
                        covers(self.cs(), m[e], c.0, c.1) && covers(self.cs(), q, c.0, c.1);
                    assert(in_cell(self.cells@, c.0, c.1, e));
                    assert(before_cell(
                        minx as int,
                        maxx as int,
                        miny as int,
                        cy as int,
                        minx as int,
                        c.0,
                        c.1,
                    ));
                }
            }
        }
        found
    }

    /// Register a new entity: append it to the bucket of every cell its
    /// rectangle occupies, and record the rectangle. The entity must not be
    /// registered yet; use `update` thereafter.
    pub fn insert(&mut self, entity: u64, rect: Rect)
        requires
            old(self).wf(),
            rect_wf(rect.m()),
            !old(self).rects().contains_key(entity),
        ensures
            final(self).wf(),
            final(self).cs() == old(self).cs(),
            final(self).rects() == old(self).rects().insert(entity, rect.m()),
    {
        let minx = div_floor(rect.x, self.cell_size);
        let maxx = div_floor(rect.x + rect.width, self.cell_size);
        let miny = div_floor(rect.y, self.cell_size);
        let maxy = div_floor(rect.y + rect.height, self.cell_size);
        proof {
            vstd::arithmetic::div_mod::lemma_div_is_ordered(rect.x as int, rect.x + rect.width, self.cs());
            vstd::arithmetic::div_mod::lemma_div_is_ordered(rect.y as int, rect.y + rect.height, self.cs());
        }
        let ghost m = old(self).rects();
        let mut cy: i64 = miny;
        while cy <= maxy
            invariant
                old(self).wf(),
                !m.contains_key(entity),
                m == old(self).rects(),
                self.cell_size == old(self).cell_size,
                self.entities@ == old(self).entities@,
                cells_distinct(self.cells@),
                buckets_ok(self.cells@),
                miny <= cy <= maxy + 1,
                minx <= maxx,
                minx == cell_of(self.cs(), rect.m().x),
                maxx == cell_of(self.cs(), rect.m().x + rect.m().width),
                miny == cell_of(self.cs(), rect.m().y),
                maxy == cell_of(self.cs(), rect.m().y + rect.m().height),
                -CELL_ARG_BOUND <= minx <= CELL_ARG_BOUND,
                -CELL_ARG_BOUND <= maxx <= CELL_ARG_BOUND,
                -CELL_ARG_BOUND <= maxy <= CELL_ARG_BOUND,
                forall|a: int, b: int, x: u64|
                    in_cell(self.cells@, a, b, x) <==> (in_cell(old(self).cells@, a, b, x) || (x
                        == entity && before_cell(
                        minx as int,
                        maxx as int,
                        miny as int,
                        cy as int,
                        minx as int,
                        a,
                        b,
                    ))),
            decreases maxy + 1 - cy,
        {
            let mut cx: i64 = minx;
            while cx <= maxx
                invariant
                    old(self).wf(),
                    !m.contains_key(entity),
                    m == old(self).rects(),
                    self.cell_size == old(self).cell_size,
                    self.entities@ == old(self).entities@,
                    cells_distinct(self.cells@),
                    buckets_ok(self.cells@),
                    minx <= cx <= maxx + 1,
                    miny <= cy <= maxy,
                    -CELL_ARG_BOUND <= minx <= CELL_ARG_BOUND,
                    -CELL_ARG_BOUND <= maxx <= CELL_ARG_BOUND,
                    forall|a: int, b: int, x: u64|
                        in_cell(self.cells@, a, b, x) <==> (in_cell(old(self).cells@, a, b, x) || (
                        x == entity && before_cell(
                            minx as int,
                            maxx as int,
                            miny as int,
                            cy as int,
                            cx as int,
                            a,
                            b,
                        ))),
                decreases maxx + 1 - cx,
            {
                proof {
                    assert(!in_cell(self.cells@, cx as int, cy as int, entity)) by {
                        if in_cell(old(self).cells@, cx as int, cy as int, entity) {
                            lemma_sound_in_cell(
                                old(self).cells@,
                                old(self).cs(),
                                m,
                                cx as int,
                                cy as int,
                                entity,
                            );
                        }
                    }
                }
                add_entity_to_cell(&mut self.cells, cx, cy, entity);
                cx = cx + 1;
            }
            cy = cy + 1;
        }
        self.entities.push((entity, rect));
        proof {
            let olds = old(self).entities@;
            lemma_assoc_push(olds, (entity, rect));
            lemma_assoc_contains(olds, entity);
            let m2 = m.insert(entity, rect.m());
            assert(self.rects() =~= m2);
            // unique keys
            assert forall|i: int, j: int|
                0 <= i < j < self.entities@.len() implies (#[trigger] self.entities@[i]).0 != (
            #[trigger] self.entities@[j]).0 by {
                if j == self.entities@.len() - 1 {
                    assert((olds[i]).0 != entity);
                }
            }
            // recorded rectangles stay bounded
            assert forall|i: int|
                0 <= i < self.entities@.len() implies rect_wf(
                (#[trigger] self.entities@[i]).1.m(),
            ) by {
                if i < olds.len() {
                    assert(rect_wf((olds[i]).1.m()));
                }
            }
            // bucket membership matches occupancy of the extended map
            assert(linked_sound(self.cells@, self.cs(), m2)) by {
                assert forall|k: int, j: int|
                    0 <= k < self.cells@.len() && 0 <= j < self.cells@[k].2@.len() implies {
                    &&& m2.contains_key(#[trigger] self.cells@[k].2@[j])
                    &&& covers(
                        self.cs(),
                        m2[self.cells@[k].2@[j]],
                        self.cells@[k].0 as int,
                        self.cells@[k].1 as int,
                    )
                } by {
                    let x = self.cells@[k].2@[j];
                    let a = self.cells@[k].0 as int;
                    let b = self.cells@[k].1 as int;
                    assert(self.cells@[k].2@.contains(x));
                    assert(in_cell(self.cells@, a, b, x));
                    if in_cell(old(self).cells@, a, b, x) {
                        lemma_sound_in_cell(old(self).cells@, old(self).cs(), m, a, b, x);
                    } else {
                        assert(x == entity && before_cell(
                            minx as int,
                            maxx as int,
                            miny as int,
                            cy as int,
                            minx as int,
                            a,
                            b,
                        ));
                        assert(covers(self.cs(), rect.m(), a, b));
                    }
                }
            }
            assert(linked_complete(self.cells@, self.cs(), m2)) by {
                assert forall|e: u64, a: int, b: int|
                    m2.contains_key(e) && #[trigger] covers(self.cs(), m2[e], a, b) implies in_cell(
                    self.cells@,
                    a,
                    b,
                    e,
                ) by {
                    if e == entity {
                        assert(before_cell(
                            minx as int,
                            maxx as int,
                            miny as int,
                            cy as int,
                            minx as int,
                            a,
                            b,
                        ));
                    } else {
                        assert(m.contains_key(e) && covers(old(self).cs(), m[e], a, b));
                        assert(in_cell(old(self).cells@, a, b, e));
                    }
                }
            }
        }
    }
}

} // verus!
