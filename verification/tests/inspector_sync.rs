use editor::entity::Entity;
use editor::inspector::{EditorRegistration, InspectorRegistry, Property, PropertyRow, PropertyRowValue};
use editor::inspector_sync::{
    component_names, plan_cards, reconcile_rows, same_path, sort_cards, CardInWorld, CardSlot, ComponentName,
    InspectedComponent, RowStep, StandingRow,
};
use editor::property::PropertyPath;

const TRANSFORM: u64 = 10;
const TAG: u64 = 20;
const PLUMBING: u64 = 30;
const VEC3: u64 = 100;
const QUAT: u64 = 101;

fn path(segments: &[&str]) -> PropertyPath {
    PropertyPath::new(segments.iter().map(|s| s.to_string()).collect())
}

fn names(pairs: &[(u64, &str)]) -> Vec<ComponentName> {
    pairs.iter().map(|(t, n)| ComponentName { type_id: *t, name: n.to_string() }).collect()
}

fn card(card: u64, target: u64, type_id: u64, stack: u64, changed: bool) -> CardInWorld {
    CardInWorld {
        card: Entity(card),
        inspects: InspectedComponent {
            entity: Entity(target),
            type_id,
            last_read: Some(4),
            registry_revision: Some(1),
        },
        parent: Some(Entity(stack)),
        changed,
    }
}

#[test]
fn lists_editable_and_scene_components_as_queryable_cards_and_hides_plumbing() {
    let mut registry = InspectorRegistry::default();
    registry.register_component(TRANSFORM, "engine::transform::Transform");
    let components = vec![(TRANSFORM, None), (TAG, Some("Tag".to_string())), (PLUMBING, None)];
    let named = component_names(&registry, &components);
    let shown: Vec<&str> = named.iter().map(|n| n.name.as_str()).collect();
    assert_eq!(shown, ["Transform", "Tag"]);
    let plan = plan_cards(Some(Entity(1)), Some(Entity(2)), &vec![], &named, registry.revision());
    let order: Vec<&str> = plan.steps.iter().map(|s| s.name.as_str()).collect();
    assert_eq!(order, ["Tag", "Transform"]);
    assert!(plan.steps.iter().all(|s| s.slot == CardSlot::Build && s.refresh));
    assert!(plan.despawn.is_empty());
}

#[test]
fn cards_stand_by_name_then_type() {
    let sorted = sort_cards(&names(&[(3, "b"), (2, "a"), (1, "b"), (4, "B")]));
    let order: Vec<(u64, &str)> = sorted.iter().map(|n| (n.type_id, n.name.as_str())).collect();
    assert_eq!(order, [(4, "B"), (2, "a"), (1, "b"), (3, "b")]);
}

#[test]
fn adding_and_removing_a_component_keeps_other_cards_rows_and_edit_buffers() {
    let transform_card = card(50, 1, TRANSFORM, 2, false);
    let with_tag = names(&[(TRANSFORM, "Transform"), (TAG, "Tag")]);
    let plan = plan_cards(Some(Entity(1)), Some(Entity(2)), &vec![transform_card], &with_tag, 1);
    assert!(plan.despawn.is_empty());
    assert_eq!(plan.steps.len(), 2);
    assert_eq!(plan.steps[0].type_id, TAG);
    assert_eq!(plan.steps[0].slot, CardSlot::Build);
    assert_eq!(plan.steps[1].slot, CardSlot::Keep(Entity(50)), "new Tag card is inserted before existing Transform");
    assert!(!plan.steps[1].refresh);

    let tag_card = card(60, 1, TAG, 2, false);
    let without_tag = names(&[(TRANSFORM, "Transform")]);
    let plan = plan_cards(Some(Entity(1)), Some(Entity(2)), &vec![tag_card, transform_card], &without_tag, 1);
    assert_eq!(plan.despawn, vec![Entity(60)]);
    assert_eq!(plan.steps.len(), 1);
    assert_eq!(plan.steps[0].slot, CardSlot::Keep(Entity(50)));
}

#[test]
fn cards_read_again_when_their_component_or_the_registry_changed() {
    let named = names(&[(TRANSFORM, "Transform")]);
    let changed = plan_cards(Some(Entity(1)), Some(Entity(2)), &vec![card(50, 1, TRANSFORM, 2, true)], &named, 1);
    assert!(changed.steps[0].refresh);
    let registered = plan_cards(Some(Entity(1)), Some(Entity(2)), &vec![card(50, 1, TRANSFORM, 2, false)], &named, 2);
    assert!(registered.steps[0].refresh);
    let mut unread = card(50, 1, TRANSFORM, 2, false);
    unread.inspects.last_read = None;
    let plan = plan_cards(Some(Entity(1)), Some(Entity(2)), &vec![unread], &named, 1);
    assert!(plan.steps[0].refresh);
}

#[test]
fn switching_selection_despawns_old_widgets_but_queued_commits_keep_their_target() {
    let named = names(&[(TRANSFORM, "Transform")]);
    let old = vec![card(50, 1, TRANSFORM, 2, false), card(51, 1, TAG, 9, false)];
    let plan = plan_cards(Some(Entity(3)), Some(Entity(2)), &old, &named, 1);
    assert_eq!(plan.despawn, vec![Entity(50), Entity(51)]);
    assert_eq!(plan.steps[0].slot, CardSlot::Build);
    let nothing = plan_cards(None, Some(Entity(2)), &old, &vec![], 1);
    assert_eq!(nothing.despawn, vec![Entity(50), Entity(51)]);
    assert!(nothing.steps.is_empty());
    let no_stack = plan_cards(Some(Entity(1)), None, &old, &named, 1);
    assert_eq!(no_stack.despawn.len(), 2);
    assert!(no_stack.steps.is_empty());
}

fn property(segments: &[&str], type_id: u64, registration: u64) -> Property {
    Property {
        path: path(segments),
        type_id,
        registration: Some(EditorRegistration(registration)),
        editor_type: Some(type_id + 1000),
    }
}

fn standing(row: u64, p: &Property, data: u64) -> StandingRow {
    StandingRow {
        row: Entity(row),
        built: Some(PropertyRow {
            entity: Entity(1),
            component: TRANSFORM,
            path: p.path.clone(),
            type_id: p.type_id,
            registration: p.registration,
            editor_type: p.editor_type,
        }),
        value: Some(PropertyRowValue::new(p.type_id, p.editor_type.unwrap(), data)),
    }
}

fn value(p: &Property, data: u64) -> PropertyRowValue {
    PropertyRowValue::new(p.type_id, p.editor_type.unwrap(), data)
}

#[test]
fn values_refresh_in_place_and_replacing_an_adapter_replaces_only_its_rows() {
    let translation = property(&["translation"], VEC3, 1);
    let rotation = property(&["rotation"], QUAT, 2);
    let scale = property(&["scale"], VEC3, 1);
    let rows = vec![standing(70, &translation, 0), standing(71, &rotation, 0), standing(72, &scale, 1)];
    let moved = vec![
        (translation.clone(), value(&translation, 8)),
        (rotation.clone(), value(&rotation, 0)),
        (scale.clone(), value(&scale, 1)),
    ];
    let plan = reconcile_rows(Entity(1), TRANSFORM, rows, &moved);
    assert!(plan.visible);
    assert_eq!(
        plan.steps,
        vec![
            RowStep::Keep { row: Entity(70), refresh_value: true },
            RowStep::Keep { row: Entity(71), refresh_value: false },
            RowStep::Keep { row: Entity(72), refresh_value: false },
        ]
    );
    assert!(plan.despawn.is_empty());

    // A new Vec3 editor: translation and scale get new rows, rotation stays.
    let rows = vec![standing(70, &translation, 8), standing(71, &rotation, 0), standing(72, &scale, 1)];
    let translation2 = property(&["translation"], VEC3, 3);
    let scale2 = property(&["scale"], VEC3, 3);
    let replaced = vec![
        (translation2.clone(), value(&translation2, 8)),
        (rotation.clone(), value(&rotation, 0)),
        (scale2.clone(), value(&scale2, 1)),
    ];
    let plan = reconcile_rows(Entity(1), TRANSFORM, rows, &replaced);
    assert_eq!(
        plan.steps,
        vec![RowStep::Spawn, RowStep::Keep { row: Entity(71), refresh_value: false }, RowStep::Spawn]
    );
    let mut gone = plan.despawn.clone();
    gone.sort_by_key(|e| e.0);
    assert_eq!(gone, vec![Entity(70), Entity(72)]);

    // An editor for the whole transform: one root row replaces them all.
    let rows = vec![standing(80, &translation2, 8), standing(71, &rotation, 0), standing(82, &scale2, 1)];
    let whole = property(&[], TRANSFORM, 4);
    let plan = reconcile_rows(Entity(1), TRANSFORM, rows, &vec![(whole.clone(), value(&whole, 0))]);
    assert_eq!(plan.steps, vec![RowStep::Spawn]);
    assert_eq!(plan.despawn.len(), 3);
}

#[test]
fn row_reordering_keeps_rows_and_an_empty_card_hides_its_body() {
    let a = property(&["a"], VEC3, 1);
    let b = property(&["b"], VEC3, 1);
    let rows = vec![
        standing(70, &a, 0),
        standing(71, &b, 0),
        StandingRow { row: Entity(72), built: None, value: None },
    ];
    let plan = reconcile_rows(Entity(1), TRANSFORM, rows, &vec![(b.clone(), value(&b, 0)), (a.clone(), value(&a, 0))]);
    assert_eq!(
        plan.steps,
        vec![
            RowStep::Keep { row: Entity(71), refresh_value: false },
            RowStep::Keep { row: Entity(70), refresh_value: false },
        ]
    );
    assert_eq!(plan.despawn, vec![Entity(72)]);
    let empty = reconcile_rows(Entity(1), TRANSFORM, vec![standing(70, &a, 0)], &vec![]);
    assert!(!empty.visible);
    assert_eq!(empty.despawn, vec![Entity(70)]);
}

#[test]
fn rows_of_another_target_are_never_reused() {
    let a = property(&["a"], VEC3, 1);
    let plan = reconcile_rows(Entity(2), TRANSFORM, vec![standing(70, &a, 0)], &vec![(a.clone(), value(&a, 0))]);
    assert_eq!(plan.steps, vec![RowStep::Spawn]);
    assert_eq!(plan.despawn, vec![Entity(70)]);
}

#[test]
fn paths_compare_segment_by_segment() {
    assert!(same_path(&path(&["inner", "weight"]), &path(&["inner", "weight"])));
    assert!(!same_path(&path(&["inner", "weight"]), &path(&["inner"])));
    assert!(!same_path(&path(&["inner", "weight"]), &path(&["inner", "height"])));
    assert!(same_path(&path(&[]), &PropertyPath::default()));
}

#[test]
fn deferred_reconciliation_makes_new_bodies_visible_and_consumes_order_requests() {
    let a = property(&["a"], VEC3, 1);
    let plan = reconcile_rows(Entity(1), TRANSFORM, vec![], &vec![(a.clone(), value(&a, 0))]);
    assert!(plan.visible);
    assert_eq!(plan.steps, vec![RowStep::Spawn]);
    let ordered = editor::inspector::order_inspector_children(&vec![Entity(5), Entity(6), Entity(7)], &vec![Entity(7), Entity(5)]);
    assert_eq!(ordered, vec![Entity(7), Entity(5), Entity(6)]);
}

#[test]
fn paths_are_equal_when_their_segments_are() {
    assert_eq!(path(&["translation", "x"]), path(&["translation", "x"]));
    assert_ne!(path(&["translation", "x"]), path(&["translation", "y"]));
    assert_ne!(path(&["translation"]), path(&["translation", "x"]));
    assert_eq!(path(&[]), PropertyPath::default());
}
