//! Transform hierarchy propagation: one pass over the parent/child forest
//! computes every record's world transform from the local transforms along
//! its path from a root, using an explicit work stack instead of recursion
//! so that arbitrarily deep hierarchies cannot exhaust the call stack.

use vstd::prelude::*;
use crate::entity::{
    core_same, forest_wf, locals_wf, propagated, worlds_in_bounds, world_of, EntityRecord,
};
use crate::transform::{compose_model, root_model, wrap360, GlobalTransform, GtM};

verus! {

/// An entity somewhere on the work stack points at arena slot `j`.
spec fn stack_has(st: Seq<(GlobalTransform, usize)>, j: int) -> bool {
    exists|t: int| 0 <= t < st.len() && (#[trigger] st[t]).1 as int == j
}

/// A phase-one stack entry: a child of an already-processed root, paired
/// with that root's world transform.
spec fn entry_ok_roots(olds: Seq<EntityRecord>, upto: int, entry: (GlobalTransform, usize)) -> bool {
    (entry.1 as int) < olds.len() ==> {
        let c = entry.1 as int;
        &&& olds[c].parent is Some
        &&& {
            let p = olds[c].parent->0 as int;
            &&& p < upto
            &&& olds[p].parent is None
            &&& entry.0.m() == world_of(olds, p)
            &&& entry.0.wf()
        }
    }
}

/// A traversal stack entry: a child of a node whose world transform is
/// settled (a root, or a node in `done`), paired with that transform.
spec fn entry_ok(olds: Seq<EntityRecord>, done: Set<int>, entry: (GlobalTransform, usize)) -> bool {
    (entry.1 as int) < olds.len() ==> {
        let c = entry.1 as int;
        &&& olds[c].parent is Some
        &&& !done.contains(c)
        &&& {
            let p = olds[c].parent->0 as int;
            &&& olds[p].parent is None || done.contains(p)
            &&& entry.0.m() == world_of(olds, p)
            &&& entry.0.wf()
        }
    }
}

/// In-range stack entries name pairwise distinct arena slots.
spec fn stack_distinct(st: Seq<(GlobalTransform, usize)>, n: int) -> bool {
    forall|t1: int, t2: int|
        0 <= t1 < t2 < st.len() && ((#[trigger] st[t1]).1 as int) < n && ((
        #[trigger] st[t2]).1 as int) < n ==> st[t1].1 != st[t2].1
}

/// Every node whose parent's world transform is settled is settled itself or
/// waiting on the stack.
spec fn covered(
    olds: Seq<EntityRecord>,
    done: Set<int>,
    st: Seq<(GlobalTransform, usize)>,
    j: int,
) -> bool {
    (0 <= j < olds.len() && olds[j].parent is Some) ==> {
        let p = olds[j].parent->0 as int;
        (olds[p].parent is None || done.contains(p)) ==> (done.contains(j) || stack_has(st, j))
    }
}

/// Every in-range child of a root with index below `upto` waits on the stack.
spec fn root_child_queued(
    olds: Seq<EntityRecord>,
    upto: int,
    st: Seq<(GlobalTransform, usize)>,
    j: int,
) -> bool {
    (0 <= j < olds.len() && olds[j].parent is Some && {
        let p = olds[j].parent->0 as int;
        p < upto && olds[p].parent is None
    }) ==> stack_has(st, j)
}

/// Once the stack has drained, settledness propagates down every path from
/// the roots, so every non-root node is settled.
proof fn lemma_all_done(olds: Seq<EntityRecord>, done: Set<int>, j: int)
    requires
        forest_wf(olds),
        0 <= j < olds.len(),
        forall|i: int| covered(olds, done, Seq::empty(), i),
    ensures
        olds[j].parent is Some ==> done.contains(j),
    decreases j,
{
    if olds[j].parent is Some {
        let p = olds[j].parent->0 as int;
        if olds[p].parent is Some {
            lemma_all_done(olds, done, p);
        }
        assert(covered(olds, done, Seq::empty(), j));
    }
}

/// Give every record whose world transform is missing a default equal to its
/// local transform (the root rule), so downstream readers never observe a
/// record with a local transform but no world transform.
pub fn ensure_global_transform_system(recs: &mut Vec<EntityRecord>)
    requires
        locals_wf(old(recs)@),
    ensures
        final(recs)@.len() == old(recs)@.len(),
        forall|j: int|
            0 <= j < old(recs)@.len() ==> {
                &&& core_same(old(recs)@[j], #[trigger] final(recs)@[j])
                &&& (old(recs)@[j].world is Some ==> final(recs)@[j].world == old(recs)@[j].world
                    && final(recs)@[j].dirty == old(recs)@[j].dirty)
                &&& (old(recs)@[j].world is None ==> final(recs)@[j].world is Some
                    && final(recs)@[j].world->0.m() == root_model(old(recs)@[j].local)
                    && final(recs)@[j].dirty)
            },
{
    let ghost olds = old(recs)@;
    let n = recs.len();
    let mut i: usize = 0;
    while i < n
        invariant
            locals_wf(olds),
            olds == old(recs)@,
            n == olds.len(),
            recs@.len() == n,
            i <= n,
            forall|j: int| 0 <= j < n ==> core_same(olds[j], #[trigger] recs@[j]),
            forall|j: int|
                0 <= j < n && (olds[j].world is Some || j >= i) ==> (#[trigger] recs@[j]).world
                    == olds[j].world && recs@[j].dirty == olds[j].dirty,
            forall|j: int|
                0 <= j < i && olds[j].world is None ==> (#[trigger] recs@[j]).world is Some
                    && recs@[j].world->0.m() == root_model(olds[j].local) && recs@[j].dirty,
        decreases n - i,
    {
        if recs[i].world.is_none() {
            let g = GlobalTransform::from_root(&recs[i].local);
            recs[i].world = Some(g);
            recs[i].dirty = true;
        }
        i = i + 1;
    }
}

/// Recompute every record's world transform from the parent/child forest:
/// roots by the root rule, children by composing the parent's freshly
/// computed world transform with their local transform, in parent-before-
/// child order via an explicit stack. A child index pointing outside the
/// arena (a despawned entity) is skipped without failing the pass. Each
/// record's `dirty` flag afterwards says whether its stored world transform
/// changed.
#[verifier::rlimit(100)]
pub fn update_global_transforms_system(recs: &mut Vec<EntityRecord>)
    requires
        forest_wf(old(recs)@),
        locals_wf(old(recs)@),
        worlds_in_bounds(old(recs)@),
    ensures
        final(recs)@.len() == old(recs)@.len(),
        forall|j: int|
            0 <= j < old(recs)@.len() ==> propagated(
                old(recs)@[j],
                #[trigger] final(recs)@[j],
                world_of(old(recs)@, j),
            ),
{
    let ghost olds = old(recs)@;
    let n = recs.len();
    let mut stack: Vec<(GlobalTransform, usize)> = Vec::new();

    // Roots: assign their world transforms and queue their children.
    let mut i: usize = 0;
    while i < n
        invariant
            forest_wf(olds),
            locals_wf(olds),
            worlds_in_bounds(olds),
            olds == old(recs)@,
            n == olds.len(),
            recs@.len() == n,
            i <= n,
            forall|j: int| 0 <= j < n ==> core_same(olds[j], #[trigger] recs@[j]),
            forall|j: int|
                0 <= j < i && (#[trigger] olds[j].parent) is None ==> propagated(
                    olds[j],
                    recs@[j],
                    world_of(olds, j),
                ),
            forall|j: int|
                0 <= j < n && ((#[trigger] olds[j].parent) is Some || j >= i) ==> recs@[j].world
                    == olds[j].world && recs@[j].dirty == olds[j].dirty,
            forall|t: int| 0 <= t < stack@.len() ==> entry_ok_roots(olds, i as int, #[trigger] stack@[t]),
            stack_distinct(stack@, n as int),
            forall|j: int| root_child_queued(olds, i as int, stack@, j),
        decreases n - i,
    {
        let par = recs[i].parent;
        if par.is_none() {
            proof {
                assert(world_of(olds, i as int) == root_model(olds[i as int].local));
            }
            let g = GlobalTransform::from_root(&recs[i].local);
            let prev_w = recs[i].world;
            let changed: bool = match prev_w {
                Some(w) => !(w == g),
                None => true,
            };
            let was_dirty = recs[i].dirty;
            recs[i].world = Some(g);
            recs[i].dirty = was_dirty || changed;
            let ghost base = stack@;
            let nchildren = recs[i].children.len();
            let mut k: usize = 0;
            while k < nchildren
                invariant
                    forest_wf(olds),
                    locals_wf(olds),
                    worlds_in_bounds(olds),
                    olds == old(recs)@,
                    n == olds.len(),
                    recs@.len() == n,
                    i < n,
                    olds[i as int].parent is None,
                    k <= nchildren,
                    nchildren == olds[i as int].children@.len(),
                    g.m() == world_of(olds, i as int),
                    g.wf(),
                    forall|j: int| 0 <= j < n ==> core_same(olds[j], #[trigger] recs@[j]),
                    forall|j: int|
                        0 <= j <= i && (#[trigger] olds[j].parent) is None ==> propagated(
                            olds[j],
                            recs@[j],
                            world_of(olds, j),
                        ),
                    forall|j: int|
                        0 <= j < n && ((#[trigger] olds[j].parent) is Some || j > i) ==> recs@[j].world
                            == olds[j].world && recs@[j].dirty == olds[j].dirty,
                    stack@.len() == base.len() + k,
                    forall|t: int| 0 <= t < base.len() ==> stack@[t] == base[t],
                    forall|t: int|
                        base.len() <= t < stack@.len() ==> (#[trigger] stack@[t]) == (
                        g,
                        olds[i as int].children@[t - base.len()],
                        ),
                    forall|t: int|
                        0 <= t < base.len() ==> entry_ok_roots(olds, i as int, #[trigger] base[t]),
                    stack_distinct(stack@, n as int),
                    forall|j: int| root_child_queued(olds, i as int, stack@, j),
                decreases nchildren - k,
            {
                let child = recs[i].children[k];
                let ghost st0 = stack@;
                stack.push((g, child));
                proof {
                    assert(stack@ =~= st0.push((g, child)));
                    assert(child == olds[i as int].children@[k as int]);
                    assert forall|t1: int, t2: int|
                        0 <= t1 < t2 < stack@.len() && ((#[trigger] stack@[t1]).1 as int) < n && ((
                        #[trigger] stack@[t2]).1 as int) < n implies stack@[t1].1 != stack@[t2].1 by {
                        if t2 == stack@.len() - 1 {
                            let c2 = stack@[t2].1;
                            if t1 < base.len() {
                                assert(entry_ok_roots(olds, i as int, base[t1]));
                                if stack@[t1].1 == c2 {
                                    let cc = c2 as int;
                                    assert(olds[cc].parent == Some((i as usize)));
                                }
                            } else {
                                assert(stack@[t1] == (g, olds[i as int].children@[t1 - base.len()]));
                            }
                        }
                    }
                    assert forall|j: int| root_child_queued(olds, i as int, stack@, j) by {
                        if 0 <= j < n && olds[j].parent is Some {
                            let p = olds[j].parent->0 as int;
                            if p < i && olds[p].parent is None {
                                assert(root_child_queued(olds, i as int, st0, j));
                                assert(stack_has(st0, j));
                                let t = choose|t: int|
                                    0 <= t < st0.len() && (#[trigger] st0[t]).1 as int == j;
                                assert(stack@[t].1 as int == j);
                            }
                        }
                    }
                }
                k = k + 1;
            }
            proof {
                // every child of root `i` is now queued
                let ghost upto2: int = i + 1;
                assert forall|j: int| root_child_queued(olds, upto2, stack@, j) by {
                    if 0 <= j < n && olds[j].parent is Some {
                        let p = olds[j].parent->0 as int;
                        if p < upto2 && olds[p].parent is None {
                            if p == i as int {
                                assert(olds[p].children@.contains((j as usize)));
                                let kk = choose|kk: int|
                                    0 <= kk < olds[p].children@.len() && olds[p].children@[kk] == (
                                    j as usize);
                                assert(stack@[base.len() + kk].1 as int == j);
                            } else {
                                assert(root_child_queued(olds, i as int, base, j));
                                assert(stack_has(base, j));
                                let t = choose|t: int|
                                    0 <= t < base.len() && (#[trigger] base[t]).1 as int == j;
                                assert(stack@[t].1 as int == j);
                            }
                        }
                    }
                }
                assert forall|t: int|
                    0 <= t < stack@.len() implies entry_ok_roots(
                    olds,
                    i + 1 as int,
                    #[trigger] stack@[t],
                ) by {
                    if t >= base.len() {
                        let c = stack@[t].1;
                        if (c as int) < n {
                            assert(olds[i as int].children@[t - base.len()] == c);
                            assert(olds[c as int].parent == Some((i as usize)));
                        }
                    } else {
                        assert(entry_ok_roots(olds, i as int, base[t]));
                    }
                }
            }
        } else {
            proof {
                let ghost upto2: int = i + 1;
                assert forall|j: int| root_child_queued(olds, upto2, stack@, j) by {
                    if 0 <= j < n && olds[j].parent is Some {
                        let p = olds[j].parent->0 as int;
                        if p < upto2 && olds[p].parent is None {
                            assert(p != i as int);
                            assert(root_child_queued(olds, i as int, stack@, j));
                        }
                    }
                }
            }
        }
        i = i + 1;
    }

    // Children: pop, compose with the parent's settled transform, queue
    // grandchildren. `done` tracks the settled non-root slots.
    let ghost mut done: Set<int> = Set::empty();
    proof {
        vstd::set_lib::lemma_int_range(0, n as int);
        assert(done.subset_of(vstd::set_lib::set_int_range(0, n as int)));
        vstd::set_lib::lemma_len_subset(done, vstd::set_lib::set_int_range(0, n as int));
        assert forall|j: int| covered(olds, done, stack@, j) by {
            if 0 <= j < n && olds[j].parent is Some {
                let p = olds[j].parent->0 as int;
                if olds[p].parent is None || done.contains(p) {
                    assert(olds[p].parent is None);
                    assert(root_child_queued(olds, n as int, stack@, j));
                }
            }
        }
    }
    while stack.len() > 0
        invariant
            forest_wf(olds),
            locals_wf(olds),
            worlds_in_bounds(olds),
            olds == old(recs)@,
            n == olds.len(),
            recs@.len() == n,
            done.finite(),
            done.len() <= n,
            forall|j: int| #[trigger] done.contains(j) ==> 0 <= j < n && olds[j].parent is Some,
            forall|j: int|
                #[trigger] done.contains(j) ==> (olds[olds[j].parent->0 as int].parent is None
                    || done.contains(olds[j].parent->0 as int)),
            forall|j: int| 0 <= j < n ==> core_same(olds[j], #[trigger] recs@[j]),
            forall|j: int|
                0 <= j < n && (#[trigger] olds[j].parent) is None ==> propagated(
                    olds[j],
                    recs@[j],
                    world_of(olds, j),
                ),
            forall|j: int|
                #[trigger] done.contains(j) ==> propagated(olds[j], recs@[j], world_of(olds, j)),
            forall|j: int|
                0 <= j < n && (#[trigger] olds[j].parent) is Some && !done.contains(j)
                    ==> recs@[j].world == olds[j].world && recs@[j].dirty == olds[j].dirty,
            forall|t: int| 0 <= t < stack@.len() ==> entry_ok(olds, done, #[trigger] stack@[t]),
            stack_distinct(stack@, n as int),
            forall|j: int| covered(olds, done, stack@, j),
        decreases n - done.len(), stack@.len(),
    {
        let ghost st0 = stack@;
        let top = stack.pop();
        match top {
            None => {
                proof {
                    assert(false);
                }
            },
            Some(entry) => {
                let (pg, cu) = entry;
                proof {
                    assert(st0[st0.len() - 1] == (pg, cu));
                    assert(entry_ok(olds, done, (pg, cu)));
                }
                if cu < n {
                    let ghost ci = cu as int;
                    let ghost p = olds[ci].parent->0 as int;
                    proof {
                        assert(0 <= p < ci);
                        assert(world_of(olds, ci) == compose_model(
                            world_of(olds, p),
                            olds[ci].local,
                        ));
                        assert(compose_model(pg.m(), recs@[ci].local) == world_of(olds, ci));
                    }
                    let g = GlobalTransform::from_local(&pg, &recs[cu].local);
                    let prev_w = recs[cu].world;
                    let changed: bool = match prev_w {
                        Some(w) => !(w == g),
                        None => true,
                    };
                    let was_dirty = recs[cu].dirty;
                    recs[cu].world = Some(g);
                    recs[cu].dirty = was_dirty || changed;
                    let ghost done0 = done;
                    proof {
                        done = done.insert(ci);
                        vstd::set_lib::lemma_int_range(0, n as int);
                        assert(done.subset_of(vstd::set_lib::set_int_range(0, n as int)));
                        vstd::set_lib::lemma_len_subset(
                            done,
                            vstd::set_lib::set_int_range(0, n as int),
                        );
                        assert(done.len() == done0.len() + 1);
                        assert(propagated(olds[ci], recs@[ci], world_of(olds, ci)));
                        // remaining old entries are still fine under the grown set
                        assert forall|t: int|
                            0 <= t < stack@.len() implies entry_ok(
                            olds,
                            done,
                            #[trigger] stack@[t],
                        ) by {
                            assert(stack@[t] == st0[t]);
                            assert(entry_ok(olds, done0, st0[t]));
                            let c2 = st0[t].1;
                            if (c2 as int) < n {
                                assert(c2 != cu);
                            }
                        }
                    }
                    proof {
                        assert forall|j: int|
                            (0 <= j < n && olds[j].parent is Some && {
                                let pj = olds[j].parent->0 as int;
                                olds[pj].parent is None || done.contains(pj)
                            }) implies (done.contains(j) || stack_has(stack@, j) || (exists|kk: int|
                            0 <= kk < olds[ci].children@.len()
                                && (#[trigger] olds[ci].children@[kk]) as int == j)) by {
                            let pj = olds[j].parent->0 as int;
                            if pj == ci {
                                assert(olds[pj].children@.contains((j as usize)));
                                let kk = choose|kk: int|
                                    0 <= kk < olds[pj].children@.len() && olds[pj].children@[kk]
                                        == (j as usize);
                                assert((olds[ci].children@[kk]) as int == j);
                            } else {
                                assert(olds[pj].parent is None || done0.contains(pj));
                                assert(covered(olds, done0, st0, j));
                                if !done0.contains(j) && stack_has(st0, j) {
                                    let t = choose|t: int|
                                        0 <= t < st0.len() && (#[trigger] st0[t]).1 as int == j;
                                    if t == st0.len() - 1 {
                                        assert(j == ci);
                                    } else {
                                        assert(stack@[t].1 as int == j);
                                        assert(stack_has(stack@, j));
                                    }
                                }
                            }
                        }
                    }
                    let ghost base = stack@;
                    let nchildren = recs[cu].children.len();
                    let mut k: usize = 0;
                    while k < nchildren
                        invariant
                            forest_wf(olds),
                            locals_wf(olds),
                            worlds_in_bounds(olds),
                            olds == old(recs)@,
                            n == olds.len(),
                            recs@.len() == n,
                            0 <= ci < n,
                            ci == cu as int,
                            olds[ci].parent is Some,
                            done.finite(),
                            done.len() <= n,
                            done == done0.insert(ci),
                            !done0.contains(ci),
                            k <= nchildren,
                            nchildren == olds[ci].children@.len(),
                            g.m() == world_of(olds, ci),
                            g.wf(),
                            forall|j: int|
                                #[trigger] done.contains(j) ==> 0 <= j < n && olds[j].parent is Some,
                            forall|j: int|
                                #[trigger] done.contains(j) ==> (olds[olds[j].parent->0 as int].parent
                                    is None || done.contains(olds[j].parent->0 as int)),
                            forall|j: int| 0 <= j < n ==> core_same(olds[j], #[trigger] recs@[j]),
                            forall|j: int|
                                0 <= j < n && (#[trigger] olds[j].parent) is None ==> propagated(
                                    olds[j],
                                    recs@[j],
                                    world_of(olds, j),
                                ),
                            forall|j: int|
                                #[trigger] done.contains(j) ==> propagated(
                                    olds[j],
                                    recs@[j],
                                    world_of(olds, j),
                                ),
                            forall|j: int|
                                0 <= j < n && (#[trigger] olds[j].parent) is Some && !done.contains(
                                    j,
                                ) ==> recs@[j].world == olds[j].world && recs@[j].dirty
                                    == olds[j].dirty,
                            stack@.len() == base.len() + k,
                            forall|t: int| 0 <= t < base.len() ==> stack@[t] == base[t],
                            forall|t: int|
                                base.len() <= t < stack@.len() ==> (#[trigger] stack@[t]) == (
                                g,
                                olds[ci].children@[t - base.len()],
                                ),
                            forall|t: int|
                                0 <= t < base.len() ==> entry_ok(olds, done0, #[trigger] base[t]),
                            forall|t: int|
                                0 <= t < base.len() ==> (((#[trigger] base[t]).1 as int) < n
                                    ==> base[t].1 != cu),
                            forall|j: int|
                                #[trigger] done0.contains(j) ==> (olds[olds[j].parent->0 as int].parent
                                    is None || done0.contains(olds[j].parent->0 as int)),
                            stack_distinct(stack@, n as int),
                            forall|j: int|
                                (0 <= j < n && olds[j].parent is Some && {
                                    let pj = olds[j].parent->0 as int;
                                    olds[pj].parent is None || done.contains(pj)
                                }) ==> (done.contains(j) || stack_has(stack@, j) || (exists|kk: int|
                                    k <= kk < olds[ci].children@.len()
                                        && (#[trigger] olds[ci].children@[kk]) as int == j)),
                        decreases nchildren - k,
                    {
                        proof {
                            assert(core_same(olds[ci], recs@[ci]));
                        }
                        let child = recs[cu].children[k];
                        let ghost st1 = stack@;
                        stack.push((g, child));
                        proof {
                            assert(stack@ =~= st1.push((g, child)));
                            assert(child == olds[ci].children@[k as int]);
                            if (child as int) < n {
                                assert(olds[child as int].parent == Some(cu));
                                assert(!done.contains(child as int)) by {
                                    assert(ci < child as int);
                                    if done0.contains(child as int) {
                                        assert(olds[child as int].parent->0 as int == ci);
                                        assert(olds[ci].parent is None || done0.contains(ci));
                                        assert(false);
                                    }
                                }
                            }
                            assert forall|t1: int, t2: int|
                                0 <= t1 < t2 < stack@.len() && ((#[trigger] stack@[t1]).1 as int)
                                    < n && ((#[trigger] stack@[t2]).1 as int) < n implies stack@[t1].1
                                != stack@[t2].1 by {
                                if t2 == stack@.len() - 1 {
                                    let c2 = stack@[t2].1;
                                    if t1 < base.len() {
                                        assert(entry_ok(olds, done0, base[t1]));
                                        if stack@[t1].1 == c2 && (c2 as int) < n {
                                            let cc = c2 as int;
                                            assert(olds[cc].parent == Some(cu));
                                            // the waiting entry's parent would have to be
                                            // settled before this iteration, but `ci` was not
                                            assert(olds[ci].parent is None || done0.contains(ci));
                                            assert(false);
                                        }
                                    } else {
                                        assert(stack@[t1] == (g, olds[ci].children@[t1 - base.len()]));
                                    }
                                }
                            }
                            assert forall|j: int|
                                (0 <= j < n && olds[j].parent is Some && {
                                    let pj = olds[j].parent->0 as int;
                                    olds[pj].parent is None || done.contains(pj)
                                }) implies (done.contains(j) || stack_has(stack@, j) || (exists|
                                kk: int,
                            |
                                k + 1 <= kk < olds[ci].children@.len()
                                    && (#[trigger] olds[ci].children@[kk]) as int == j)) by {
                                if !done.contains(j) {
                                    if stack_has(st1, j) {
                                        let t = choose|t: int|
                                            0 <= t < st1.len() && (#[trigger] st1[t]).1 as int == j;
                                        assert(stack@[t].1 as int == j);
                                        assert(stack_has(stack@, j));
                                    } else {
                                        let kk = choose|kk: int|
                                            k <= kk < olds[ci].children@.len() && (
                                            #[trigger] olds[ci].children@[kk]) as int == j;
                                        if kk == k as int {
                                            assert(stack@[stack@.len() - 1].1 as int == j);
                                            assert(stack_has(stack@, j));
                                        }
                                    }
                                }
                            }
                        }
                        k = k + 1;
                    }
                    proof {
                        // every waiting entry is sound for the grown settled set
                        assert forall|t: int|
                            0 <= t < stack@.len() implies entry_ok(
                            olds,
                            done,
                            #[trigger] stack@[t],
                        ) by {
                            let c2 = stack@[t].1;
                            if t < base.len() {
                                assert(entry_ok(olds, done0, base[t]));
                                if (c2 as int) < n {
                                    assert(c2 != cu);
                                }
                            } else {
                                assert(stack@[t] == (g, olds[ci].children@[t - base.len()]));
                                if (c2 as int) < n {
                                    assert(olds[c2 as int].parent == Some(cu));
                                    assert(ci < c2 as int);
                                    if done0.contains(c2 as int) {
                                        assert(olds[c2 as int].parent->0 as int == ci);
                                        assert(olds[ci].parent is None || done0.contains(ci));
                                        assert(false);
                                    }
                                }
                            }
                        }
                        // restore the outer coverage invariant
                        assert forall|j: int| covered(olds, done, stack@, j) by {
                            if 0 <= j < n && olds[j].parent is Some {
                                let pj = olds[j].parent->0 as int;
                                if olds[pj].parent is None || done.contains(pj) {
                                    if !done.contains(j) {
                                        assert(stack_has(stack@, j) || (exists|kk: int|
                                            nchildren <= kk < olds[ci].children@.len() && (
                                            #[trigger] olds[ci].children@[kk]) as int == j));
                                    }
                                }
                            }
                        }
                    }
                } else {
                    proof {
                        // a dangling child: dropping it loses no coverage
                        assert forall|j: int| covered(olds, done, stack@, j) by {
                            if 0 <= j < n && olds[j].parent is Some {
                                let pj = olds[j].parent->0 as int;
                                if (olds[pj].parent is None || done.contains(pj)) && !done.contains(
                                    j,
                                ) {
                                    assert(covered(olds, done, st0, j));
                                    let t = choose|t: int|
                                        0 <= t < st0.len() && (#[trigger] st0[t]).1 as int == j;
                                    assert(t < st0.len() - 1);
                                    assert(stack@[t].1 as int == j);
                                }
                            }
                        }
                    }
                }
            },
        }
    }
    proof {
        assert forall|jj: int| covered(olds, done, Seq::empty(), jj) by {
            assert(covered(olds, done, stack@, jj));
            if 0 <= jj < n && olds[jj].parent is Some {
                let p = olds[jj].parent->0 as int;
                if (olds[p].parent is None || done.contains(p)) && !done.contains(jj) {
                    let t = choose|t: int|
                        0 <= t < stack@.len() && (#[trigger] stack@[t]).1 as int == jj;
                    assert(false);
                }
            }
        }
        assert forall|j: int|
            0 <= j < n implies propagated(olds[j], #[trigger] recs@[j], world_of(olds, j)) by {
            lemma_all_done(olds, done, j);
        }
    }
}

/// For a three-level chain of records (a root, its child, and a grandchild),
/// the grandchild's world position is exactly the sum of the three local
/// positions; with zero rotations and unit scales throughout, its world
/// transform is exactly that sum with rotation zero and unit scale. World
/// rotations always land in [0, 360).
pub proof fn lemma_three_level_chain(s: Seq<EntityRecord>, r: int, a: int, b: int)
    requires
        forest_wf(s),
        s.len() <= usize::MAX,
        0 <= r < a < b < s.len(),
        s[r].parent is None,
        s[a].parent == Some((r as usize)),
        s[b].parent == Some((a as usize)),
    ensures
        world_of(s, b).px == s[r].local.position.x + s[a].local.position.x + s[b].local.position.x,
        world_of(s, b).py == s[r].local.position.y + s[a].local.position.y + s[b].local.position.y,
        s[r].local.rotation == 0 && s[a].local.rotation == 0 && s[b].local.rotation == 0
            && s[r].local.scale.x == 1 && s[r].local.scale.y == 1 && s[a].local.scale.x == 1
            && s[a].local.scale.y == 1 && s[b].local.scale.x == 1 && s[b].local.scale.y == 1
            ==> world_of(s, b) == (GtM {
            px: s[r].local.position.x + s[a].local.position.x + s[b].local.position.x,
            py: s[r].local.position.y + s[a].local.position.y + s[b].local.position.y,
            rot: 0,
            sx: 1,
            sy: 1,
        }),
{
    assert(world_of(s, r) == root_model(s[r].local));
    assert(world_of(s, a) == compose_model(world_of(s, r), s[a].local));
    assert(world_of(s, b) == compose_model(world_of(s, a), s[b].local));
    vstd::arithmetic::div_mod::lemma_mod_bound(0, 360);
    assert(wrap360(0) == 0);
}

/// Every world transform's rotation is wrapped into [0, 360).
pub proof fn lemma_world_rotation_wrapped(s: Seq<EntityRecord>, j: int)
    requires
        0 <= j < s.len(),
    ensures
        0 <= world_of(s, j).rot < 360,
{
    if s[j].parent is Some {
        let p = s[j].parent->0 as int;
        if 0 <= p < j {
            vstd::arithmetic::div_mod::lemma_mod_bound(
                world_of(s, p).rot + s[j].local.rotation,
                360,
            );
        } else {
            vstd::arithmetic::div_mod::lemma_mod_bound(s[j].local.rotation as int, 360);
        }
    } else {
        vstd::arithmetic::div_mod::lemma_mod_bound(s[j].local.rotation as int, 360);
    }
}

} // verus!
