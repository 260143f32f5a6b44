use editor::entity::{AssetId, Entity};
use editor::selection::{Selection, SelectionKind};

#[test]
fn revision_only_moves_on_a_real_change() {
    let entity = Entity(7);
    let mut selection = Selection::default();

    selection.select_entity(entity);
    let after_first = selection.revision();
    assert!(after_first > 0, "selecting something must bump the revision");

    selection.select_entity(entity);
    assert_eq!(
        selection.revision(),
        after_first,
        "re-selecting the same thing must not invalidate every panel"
    );
}

#[test]
fn clearing_a_different_entity_leaves_the_selection_alone() {
    let kept = Entity(1);
    let other = Entity(2);
    let mut selection = Selection::default();
    selection.select_entity(kept);

    selection.clear_entity(other);

    assert_eq!(
        selection.entity(),
        Some(kept),
        "despawning an unrelated entity must not clear the selection"
    );
}

#[test]
fn clearing_the_selected_entity_drops_it() {
    let doomed = Entity(3);
    let mut selection = Selection::default();
    selection.select_entity(doomed);

    selection.clear_entity(doomed);

    assert_eq!(
        selection.current(),
        None,
        "a selection must never outlive the entity it names"
    );
}

#[test]
fn assets_and_entities_are_told_apart() {
    let mut selection = Selection::new();
    selection.select_asset(AssetId(9));
    assert_eq!(selection.asset(), Some(AssetId(9)));
    assert_eq!(selection.entity(), None);
    assert!(selection.is(SelectionKind::Asset(AssetId(9))));
    assert_eq!(selection.revision(), 1);
    selection.set(SelectionKind::Entity(Entity(4)));
    assert_eq!(selection.revision(), 2);
    selection.clear();
    assert_eq!(selection.current(), None);
    assert_eq!(selection.revision(), 3);
    selection.clear();
    assert_eq!(selection.revision(), 3);
}
