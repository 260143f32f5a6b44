//! Contextual panel hosts and input transitions for asset editors: which
//! panels show for the active document, and what a tab switch clears.
use vstd::prelude::*;

use crate::entity::Entity;
use crate::text::same_text;

verus! {

/// Whether a document of `asset_type` gets contextual hosts of its own. The
/// scene editor uses the shared panels; every other editor builds into hosts
/// laid over them.
pub fn needs_hosts(asset_type: &str) -> (needs: bool)
    ensures
        needs == (asset_type@ != "Scene"@),
{
    !same_text(asset_type, "Scene")
}

/// Whether the shared panels show: when no document is active, or the
/// active one is a scene.
pub fn shared_panels_visible(active_type: Option<&str>) -> (visible: bool)
    ensures
        visible == match active_type {
            None => true,
            Some(t) => t@ == "Scene"@,
        },
{
    match active_type {
        None => true,
        Some(t) => same_text(t, "Scene"),
    }
}

/// Whether the hosts of document `owner` show: only while it is active.
pub fn hosts_visible(active: Option<Entity>, owner: Entity) -> (visible: bool)
    ensures
        visible == (active == Some(owner)),
{
    active == Some(owner)
}

/// Whether an entity of the rail keeps its place at the front: the shared
/// tree panel and the contextual left hosts do, everything else follows.
pub open spec fn rail_front(entity: Entity, base: Entity, contextual: Seq<Entity>) -> bool {
    entity == base || contextual.contains(entity)
}

/// The rail's children split in two, each part in its old order: those
/// that keep their place at the front, then the rest.
pub open spec fn rail_parts(siblings: Seq<Entity>, base: Entity, contextual: Seq<Entity>) -> (Seq<Entity>, Seq<Entity>)
    decreases siblings.len(),
{
    if siblings.len() == 0 {
        (Seq::empty(), Seq::empty())
    } else {
        let (front, back) = rail_parts(siblings.drop_last(), base, contextual);
        let e = siblings.last();
        if rail_front(e, base, contextual) {
            (front.push(e), back)
        } else {
            (front, back.push(e))
        }
    }
}

fn listed(entities: &Vec<Entity>, e: Entity) -> (found: bool)
    ensures
        found == entities@.contains(e),
{
    let mut i: usize = 0;
    while i < entities.len()
        invariant
            0 <= i <= entities@.len(),
            forall|j: int| 0 <= j < i ==> entities@[j] != e,
        decreases entities@.len() - i,
    {
        if entities[i] == e {
            assert(entities@[i as int] == e);
            return true;
        }
        i = i + 1;
    }
    false
}

/// Keeps the contextual left panel before the shared content browser in the
/// rail: the shared tree and the contextual hosts first, the rest after, as
/// a stable sort on that one key would.
pub fn order_rail(siblings: &Vec<Entity>, base: Entity, contextual: &Vec<Entity>) -> (ordered: Vec<Entity>)
    ensures
        ordered@ == rail_parts(siblings@, base, contextual@).0 + rail_parts(siblings@, base, contextual@).1,
{
    let mut front: Vec<Entity> = Vec::new();
    let mut back: Vec<Entity> = Vec::new();
    let mut i: usize = 0;
    while i < siblings.len()
        invariant
            0 <= i <= siblings@.len(),
            (front@, back@) == rail_parts(siblings@.take(i as int), base, contextual@),
        decreases siblings@.len() - i,
    {
        let e = siblings[i];
        assert(siblings@.take(i + 1).drop_last() =~= siblings@.take(i as int));
        assert(siblings@.take(i + 1).last() == e);
        if e == base || listed(contextual, e) {
            front.push(e);
        } else {
            back.push(e);
        }
        i = i + 1;
    }
    assert(siblings@.take(siblings@.len() as int) =~= siblings@);
    let mut ordered = front;
    let mut rest = back;
    ordered.append(&mut rest);
    ordered
}

/// What a tab switch or a scene replacement clears.
#[derive(Debug, Clone, Copy, PartialEq, Eq, Structural)]
pub struct InputReset {
    /// Focus, hover, pointer state and key contexts start over, and the
    /// viewport lets go of the pointer.
    pub clear_input: bool,
    /// The tree forgets its rows, open nodes and filter.
    pub clear_tree: bool,
}

/// What to clear when the active document changed, or when the viewport
/// asked for a reset (`reset_requested`, which counts only when the
/// viewport's requests changed this frame).
pub fn input_reset(active_changed: bool, viewport_changed: bool, reset_requested: bool) -> (reset: InputReset)
    ensures
        reset.clear_input == (active_changed || (viewport_changed && reset_requested)),
        reset.clear_tree == (viewport_changed && reset_requested),
{
    let reset = viewport_changed && reset_requested;
    InputReset { clear_input: active_changed || reset, clear_tree: reset }
}

} // verus!
