//! The one thing every panel agrees on.
//!
//! Panels never reference each other: the hierarchy and viewport write here,
//! the inspector and viewport read. That is what makes a panel removable.
use vstd::prelude::*;

use crate::entity::{AssetId, Entity};

verus! {

#[derive(Debug, Clone, Copy, PartialEq, Eq, Structural)]
pub enum SelectionKind {
    /// A live entity in the world.
    Entity(Entity),
    /// An asset in the project catalogue, which may not be spawned at all.
    Asset(AssetId),
}

/// What is selected, and how many times that has really changed.
pub struct Selection {
    current: Option<SelectionKind>,
    revision: u64,
}

/// What replacing the selection with `next` does to `(current, revision)`.
pub open spec fn replaced(
    current: Option<SelectionKind>,
    revision: u64,
    next: Option<SelectionKind>,
) -> (Option<SelectionKind>, u64) {
    if current != next {
        (next, (revision + 1) as u64)
    } else {
        (current, revision)
    }
}

impl Selection {
    pub closed spec fn spec_current(&self) -> Option<SelectionKind> {
        self.current
    }

    pub closed spec fn spec_revision(&self) -> u64 {
        self.revision
    }

    /// Nothing selected, and no change seen yet.
    pub fn new() -> (selection: Self)
        ensures
            selection.spec_current() is None,
            selection.spec_revision() == 0,
    {
        Selection { current: None, revision: 0 }
    }

    pub fn current(&self) -> (current: Option<SelectionKind>)
        ensures
            current == self.spec_current(),
    {
        self.current
    }

    pub fn revision(&self) -> (revision: u64)
        ensures
            revision == self.spec_revision(),
    {
        self.revision
    }

    pub fn entity(&self) -> (entity: Option<Entity>)
        ensures
            entity == (match self.spec_current() {
                Some(SelectionKind::Entity(e)) => Some(e),
                _ => None,
            }),
    {
        match self.current {
            Some(SelectionKind::Entity(entity)) => Some(entity),
            _ => None,
        }
    }

    pub fn asset(&self) -> (asset: Option<AssetId>)
        ensures
            asset == (match self.spec_current() {
                Some(SelectionKind::Asset(id)) => Some(id),
                _ => None,
            }),
    {
        match self.current {
            Some(SelectionKind::Asset(id)) => Some(id),
            _ => None,
        }
    }

    pub fn is(&self, kind: SelectionKind) -> (same: bool)
        ensures
            same == (self.spec_current() == Some(kind)),
    {
        self.current == Some(kind)
    }

    /// Replaces the selection; the revision moves only on a real change.
    fn replace(&mut self, next: Option<SelectionKind>)
        requires
            old(self).spec_current() != next ==> old(self).spec_revision() < u64::MAX,
        ensures
            (final(self).spec_current(), final(self).spec_revision()) == replaced(
                old(self).spec_current(),
                old(self).spec_revision(),
                next,
            ),
    {
        if self.current != next {
            self.current = next;
            self.revision = self.revision + 1;
        }
    }

    pub fn set(&mut self, kind: SelectionKind)
        requires
            old(self).spec_current() != Some(kind) ==> old(self).spec_revision() < u64::MAX,
        ensures
            (final(self).spec_current(), final(self).spec_revision()) == replaced(
                old(self).spec_current(),
                old(self).spec_revision(),
                Some(kind),
            ),
    {
        self.replace(Some(kind));
    }

    pub fn select_entity(&mut self, entity: Entity)
        requires
            old(self).spec_current() != Some(SelectionKind::Entity(entity)) ==> old(self).spec_revision() < u64::MAX,
        ensures
            (final(self).spec_current(), final(self).spec_revision()) == replaced(
                old(self).spec_current(),
                old(self).spec_revision(),
                Some(SelectionKind::Entity(entity)),
            ),
    {
        self.set(SelectionKind::Entity(entity));
    }

    pub fn select_asset(&mut self, id: AssetId)
        requires
            old(self).spec_current() != Some(SelectionKind::Asset(id)) ==> old(self).spec_revision() < u64::MAX,
        ensures
            (final(self).spec_current(), final(self).spec_revision()) == replaced(
                old(self).spec_current(),
                old(self).spec_revision(),
                Some(SelectionKind::Asset(id)),
            ),
    {
        self.set(SelectionKind::Asset(id));
    }

    pub fn clear(&mut self)
        requires
            old(self).spec_current() != None::<SelectionKind> ==> old(self).spec_revision() < u64::MAX,
        ensures
            (final(self).spec_current(), final(self).spec_revision()) == replaced(
                old(self).spec_current(),
                old(self).spec_revision(),
                None,
            ),
    {
        self.replace(None);
    }

    /// Clears the selection only if it names `entity`, for use when an entity
    /// is about to be despawned, so the selection never dangles.
    pub fn clear_entity(&mut self, entity: Entity)
        requires
            old(self).spec_current() == Some(SelectionKind::Entity(entity)) ==> old(self).spec_revision() < u64::MAX,
        ensures
            old(self).spec_current() == Some(SelectionKind::Entity(entity)) ==> final(self).spec_current() is None
                && final(self).spec_revision() == old(self).spec_revision() + 1,
            old(self).spec_current() != Some(SelectionKind::Entity(entity)) ==> final(self).spec_current()
                == old(self).spec_current() && final(self).spec_revision() == old(self).spec_revision(),
    {
        if self.entity() == Some(entity) {
            self.clear();
        }
    }
}

/// The revision counts real changes: selecting what is already selected
/// leaves it where it was, and any other replacement moves it by one.
pub proof fn law_revision_moves_only_on_change(
    current: Option<SelectionKind>,
    revision: u64,
    next: Option<SelectionKind>,
)
    requires
        current != next ==> revision < u64::MAX,
    ensures
        replaced(current, revision, next).0 == next,
        replaced(current, revision, next).1 == revision <==> current == next,
        replaced(replaced(current, revision, next).0, replaced(current, revision, next).1, next)
            == replaced(current, revision, next),
{
}

impl Default for Selection {
    fn default() -> (value: Self)
        ensures
            value.spec_current() is None,
            value.spec_revision() == 0,
    {
        Selection::new()
    }
}

} // verus!
