//! The per-entity record the simulation core works on, and the shape of the
//! parent/child forest: an arena of records indexed by entity identifier,
//! with index-based child lists (no pointer-linked children).

use vstd::prelude::*;
use crate::components::{Collider, Sprite, Velocity};
use crate::transform::{compose_model, root_model, GlobalTransform, GtM, Transform};

verus! {

/// Everything the core reads or writes about one entity. The entity's
/// identifier is its index in the arena; a child index at or beyond the
/// arena length stands for a despawned entity and is skipped.
#[derive(Clone, Debug)]
pub struct EntityRecord {
    /// Local transform, authored by movement logic.
    pub local: Transform,
    /// Derived world transform; absent until first assigned.
    pub world: Option<GlobalTransform>,
    /// Index of the parent record, if any.
    pub parent: Option<usize>,
    /// Indices of the child records, owned by the external store.
    pub children: Vec<usize>,
    pub sprite: Option<Sprite>,
    pub collider: Option<Collider>,
    pub velocity: Option<Velocity>,
    /// Set exactly for entities the last visibility pass saw.
    pub on_screen: bool,
    /// The player marker, excluded from some counts.
    pub player: bool,
    /// The world transform changed when it was last recomputed.
    pub dirty: bool,
}

/// The parent/child links form a forest over the arena: every in-range child
/// index points back via `parent`, parents precede children (no cycles), a
/// node's in-range children are distinct, and every parent link is mirrored
/// in the parent's child list.
pub open spec fn forest_wf(s: Seq<EntityRecord>) -> bool {
    &&& forall|i: int, k: int|
        0 <= i < s.len() && 0 <= k < s[i].children@.len() && (#[trigger] s[i].children@[k]) < s.len()
            ==> i < s[i].children@[k] as int && s[s[i].children@[k] as int].parent == Some(
            (i as usize),
        )
    &&& forall|i: int, k1: int, k2: int|
        0 <= i < s.len() && 0 <= k1 < k2 < s[i].children@.len() ==> (#[trigger] s[i].children@[k1])
            != (#[trigger] s[i].children@[k2])
    &&& forall|j: int|
        0 <= j < s.len() && (#[trigger] s[j].parent) is Some ==> {
            let p = s[j].parent->0 as int;
            0 <= p < j && s[p].children@.contains((j as usize))
        }
}

/// All local transforms are bounded.
pub open spec fn locals_wf(s: Seq<EntityRecord>) -> bool {
    forall|j: int| 0 <= j < s.len() ==> (#[trigger] s[j]).local.wf()
}

/// The world transform each record is owed: its local transform at a root,
/// the parent's world transform composed with its local transform below.
pub open spec fn world_of(s: Seq<EntityRecord>, j: int) -> GtM
    decreases j,
{
    if 0 <= j < s.len() {
        match s[j].parent {
            None => root_model(s[j].local),
            Some(p) => if 0 <= (p as int) && (p as int) < j {
                compose_model(world_of(s, p as int), s[j].local)
            } else {
                root_model(s[j].local)
            },
        }
    } else {
        root_model(s[j].local)
    }
}

/// Every owed world transform fits the machine-integer bounds of
/// `GlobalTransform`; the propagator requires this of the forest it is
/// handed.
pub open spec fn worlds_in_bounds(s: Seq<EntityRecord>) -> bool {
    forall|j: int| 0 <= j < s.len() ==> crate::transform::gtm_within(#[trigger] world_of(s, j))
}

/// Two records agree on everything but the derived `world` and `dirty`
/// fields.
pub open spec fn core_same(a: EntityRecord, b: EntityRecord) -> bool {
    &&& a.local == b.local
    &&& a.parent == b.parent
    &&& a.children@ == b.children@
    &&& a.sprite == b.sprite
    &&& a.collider == b.collider
    &&& a.velocity == b.velocity
    &&& a.on_screen == b.on_screen
    &&& a.player == b.player
}

/// Record `new_r` is `old_r` with its world transform recomputed to `g`;
/// `dirty` accumulates: it is set when recomputation changed the stored
/// world transform, and keeps an earlier set flag until the index pass
/// consumes it.
pub open spec fn propagated(old_r: EntityRecord, new_r: EntityRecord, g: GtM) -> bool {
    &&& core_same(old_r, new_r)
    &&& new_r.world is Some
    &&& new_r.world->0.m() == g
    &&& new_r.dirty == (old_r.dirty || new_r.world != old_r.world)
}

} // verus!
