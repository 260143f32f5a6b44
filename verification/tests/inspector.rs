use editor::entity::Entity;
use editor::inspector::{
    apply_property_commit, apply_property_commits, component_count_label, inspector_data, label_for, order_inspector_children,
    EditError, EditorRegistration, InspectorRegistry, PropertyCommit, PropertyRowValue, SelectedEntity,
};
use editor::inspector_sync::{component_count, InspectedComponent};
use editor::property::{Editable, Field, PropertyPath};

const TRANSFORM: u64 = 100;
const VEC3: u64 = 1;
const QUAT: u64 = 2;
const NUMERIC_FIELDS: u64 = 50;
const NUMERIC_EDIT: u64 = 51;

fn path(segments: &[&str]) -> PropertyPath {
    PropertyPath::new(segments.iter().map(|s| s.to_string()).collect())
}

fn field(name: &str, value: Editable) -> Field {
    Field { name: name.to_string(), value }
}

fn transform() -> Editable {
    Editable::Composite {
        type_id: TRANSFORM,
        fields: vec![
            field("translation", Editable::Leaf { type_id: VEC3, slot: 0 }),
            field("rotation", Editable::Leaf { type_id: QUAT, slot: 1 }),
            field("scale", Editable::Leaf { type_id: VEC3, slot: 2 }),
        ],
    }
}

fn registry() -> InspectorRegistry {
    let mut registry = InspectorRegistry::default();
    registry.register_component(TRANSFORM, "essential::transform::Transform");
    registry.register_property_editor(VEC3, NUMERIC_FIELDS, NUMERIC_EDIT);
    registry.register_property_editor(QUAT, NUMERIC_FIELDS, NUMERIC_EDIT);
    registry
}

fn inspected(entity: u64, type_id: u64) -> InspectedComponent {
    InspectedComponent { entity: Entity(entity), type_id, last_read: None, registry_revision: None }
}

#[test]
fn panel_count_comes_from_card_entities() {
    let cards = vec![inspected(1, TRANSFORM), inspected(2, TRANSFORM)];
    assert_eq!(component_label_for(&cards, Some(Entity(1))), "COMPONENTS  1");
    // The component is removed: its card goes, and the count line empties.
    let cards = vec![inspected(2, TRANSFORM)];
    assert_eq!(component_label_for(&cards, Some(Entity(1))), "");
}

fn component_label_for(cards: &Vec<InspectedComponent>, target: Option<Entity>) -> String {
    component_count_label(component_count(cards, target))
}

#[test]
fn the_count_covers_only_the_inspected_entity() {
    let cards = vec![inspected(1, TRANSFORM), inspected(2, TRANSFORM), inspected(1, VEC3)];
    assert_eq!(component_count(&cards, Some(Entity(1))), 2);
    assert_eq!(component_count(&cards, Some(Entity(3))), 0);
    assert_eq!(component_count(&cards, None), 0);
    assert_eq!(component_count(&Vec::new(), Some(Entity(1))), 0);
}

#[test]
fn labels_capitalise_the_field_name() {
    assert_eq!(label_for(&path(&["translation"])), "Translation");
    assert_eq!(label_for(&path(&["inner", "weight"])), "Weight");
}

#[test]
fn the_root_row_has_no_label_of_its_own() {
    assert_eq!(label_for(&PropertyPath::default()), "");
    assert_eq!(label_for(&path(&["éclat"])), "Éclat");
}

#[test]
fn component_names_are_the_end_of_their_type_path() {
    let registry = registry();
    assert_eq!(registry.component(TRANSFORM), Some("Transform".to_string()));
    assert_eq!(registry.component(7), None);
    let mut other = InspectorRegistry::default();
    other.register_component(7, "Plain");
    assert_eq!(other.component(7), Some("Plain".to_string()));
}

#[test]
fn editors_are_preferred_over_fields_in_declaration_order() {
    let rows = registry().collect(&transform());
    let names: Vec<String> = rows.iter().map(|r| label_for(&r.path)).collect();
    assert_eq!(names, vec!["Translation", "Rotation", "Scale"]);
    assert!(rows.iter().all(|r| r.registration().is_some()));
}

#[test]
fn unsupported_values_build_an_explicit_read_only_row() {
    let value = Editable::Composite {
        type_id: 300,
        fields: vec![field("name", Editable::Leaf { type_id: 301, slot: 0 })],
    };
    let rows = registry().collect(&value);
    assert_eq!(rows.len(), 1);
    assert_eq!(rows[0].path.depth(), 1);
    assert_eq!(rows[0].registration(), None);
    assert_eq!(rows[0].editor_type, None);
}

#[test]
fn registered_composite_is_one_row_and_fallback_retains_unsupported_fields() {
    let mut registry = registry();
    registry.register_property_editor(TRANSFORM, 60, 61);
    let rows = registry.collect(&transform());
    assert_eq!(rows.len(), 1);
    assert_eq!(rows[0].path.depth(), 0);
    assert_eq!(rows[0].type_id, TRANSFORM);
    let empty = Editable::Composite { type_id: 400, fields: vec![] };
    let rows = registry.collect(&empty);
    assert_eq!(rows.len(), 1);
    assert_eq!(rows[0].registration(), None);
}

fn translation_row(registry: &InspectorRegistry, entity: Entity) -> editor::inspector::PropertyRow {
    registry.collect(&transform())[0].row(entity, TRANSFORM)
}

#[test]
fn mismatched_payloads_are_errors_and_never_reach_the_adapter() {
    let registry = registry();
    let row = translation_row(&registry, Entity(1));
    assert_eq!(
        PropertyCommit::new(translation_row(&registry, Entity(1)), 999, NUMERIC_FIELDS, NUMERIC_EDIT).err(),
        Some(EditError::TypeMismatch)
    );
    let malformed = PropertyCommit { row, edit_type: 12345 };
    assert_eq!(
        apply_property_commit(&registry, &malformed, Some(&transform())),
        Err(EditError::TypeMismatch)
    );
}

#[test]
fn replacing_the_registry_also_invalidates_old_edits() {
    let old = registry();
    let edit = PropertyCommit::new(translation_row(&old, Entity(1)), VEC3, NUMERIC_FIELDS, NUMERIC_EDIT).unwrap();
    let mut replacement = InspectorRegistry::default();
    replacement.register_component(TRANSFORM, "essential::transform::Transform");
    assert_eq!(
        apply_property_commit(&replacement, &edit, Some(&transform())),
        Err(EditError::StaleEditor)
    );
}

#[test]
fn a_replacement_registry_continues_where_the_old_one_stopped() {
    let old = registry();
    let edit = PropertyCommit::new(translation_row(&old, Entity(1)), VEC3, NUMERIC_FIELDS, NUMERIC_EDIT).unwrap();
    assert_eq!(apply_property_commit(&old, &edit, Some(&transform())), Ok(Some(0)));
    let mut replacement = InspectorRegistry::replacing(&old);
    assert_eq!(replacement.revision(), 0);
    replacement.register_component(TRANSFORM, "essential::transform::Transform");
    let id = replacement.register_property_editor(VEC3, NUMERIC_FIELDS, NUMERIC_EDIT);
    assert_eq!(id, EditorRegistration(2));
    assert_eq!(
        apply_property_commit(&replacement, &edit, Some(&transform())),
        Err(EditError::StaleEditor)
    );
    let fresh = PropertyCommit::new(translation_row(&replacement, Entity(1)), VEC3, NUMERIC_FIELDS, NUMERIC_EDIT).unwrap();
    assert_eq!(apply_property_commit(&replacement, &fresh, Some(&transform())), Ok(Some(0)));
}

#[test]
fn a_default_registry_is_empty() {
    let registry = InspectorRegistry::default();
    assert_eq!(registry.revision(), 0);
    assert_eq!(registry.component(TRANSFORM), None);
    assert!(registry.editor(VEC3).is_none());
}

#[test]
fn snapshots_downcast_by_their_editor_type() {
    let value = PropertyRowValue::new(VEC3, NUMERIC_FIELDS, 7);
    assert_eq!(value.downcast(NUMERIC_FIELDS), Some(7));
    assert_eq!(value.downcast(NUMERIC_EDIT), None);
    assert_eq!(value.snapshot(QUAT, NUMERIC_FIELDS), None);
    assert_eq!(PropertyRowValue::default().downcast(NUMERIC_FIELDS), None);
}

#[test]
fn replacing_an_adapter_invalidates_old_edits_even_for_the_same_adapter_type() {
    let mut registry = registry();
    let edit = PropertyCommit::new(translation_row(&registry, Entity(1)), VEC3, NUMERIC_FIELDS, NUMERIC_EDIT).unwrap();
    assert_eq!(apply_property_commit(&registry, &edit, Some(&transform())), Ok(Some(0)));
    let id = registry.register_property_editor(VEC3, NUMERIC_FIELDS, NUMERIC_EDIT);
    assert_eq!(id, EditorRegistration(2));
    assert_eq!(
        apply_property_commit(&registry, &edit, Some(&transform())),
        Err(EditError::StaleEditor)
    );
}

#[test]
fn unregistered_components_return_an_error() {
    let registry = registry();
    let edit = PropertyCommit::new(translation_row(&registry, Entity(1)), VEC3, NUMERIC_FIELDS, NUMERIC_EDIT).unwrap();
    let mut bare = InspectorRegistry::default();
    bare.register_property_editor(VEC3, NUMERIC_FIELDS, NUMERIC_EDIT);
    assert_eq!(
        apply_property_commit(&bare, &edit, Some(&transform())),
        Err(EditError::UnregisteredComponent)
    );
}

#[test]
fn missing_targets_and_incompatible_paths_return_errors() {
    let registry = registry();
    let edit = PropertyCommit::new(translation_row(&registry, Entity(1)), VEC3, NUMERIC_FIELDS, NUMERIC_EDIT).unwrap();
    assert_eq!(apply_property_commit(&registry, &edit, None), Err(EditError::MissingTarget));
    let other_shape = Editable::Composite {
        type_id: TRANSFORM,
        fields: vec![field("absent", Editable::Leaf { type_id: VEC3, slot: 0 })],
    };
    assert_eq!(
        apply_property_commit(&registry, &edit, Some(&other_shape)),
        Err(EditError::NotFound)
    );
}

#[test]
fn rows_without_an_editor_cannot_queue_edits() {
    let registry = registry();
    let unsupported = Editable::Composite { type_id: 300, fields: vec![] };
    let row = registry.collect(&unsupported)[0].row(Entity(1), TRANSFORM);
    assert_eq!(
        PropertyCommit::new(row, 300, NUMERIC_FIELDS, NUMERIC_EDIT).err(),
        Some(EditError::TypeMismatch)
    );
}

#[test]
fn headings_describe_the_selection() {
    let entity = Entity::from_parts(5, 0);
    let data = inspector_data(3, Some(entity), Some(SelectedEntity { name: Some("Renamed".into()), children: 1, root_address: None }));
    assert_eq!(data.heading, "Renamed\n\nEntity 5 · 1 children");
    assert_eq!(data.entity, Some(entity));
    assert_eq!(data.closable_scene, None);
    assert_eq!(data.revision, Some(3));
    let gone = inspector_data(4, Some(entity), None);
    assert_eq!(gone.heading, "Selection is no longer in the world.");
    assert_eq!(gone.entity, None);
    let root = inspector_data(5, Some(entity), Some(SelectedEntity { name: None, children: 2, root_address: Some("level.gasset".into()) }));
    assert_eq!(root.heading, "level.gasset\n\nScene root · 2 children");
    assert_eq!(root.closable_scene, Some(entity));
    let nameless = inspector_data(6, Some(entity), Some(SelectedEntity { name: None, children: 0, root_address: None }));
    assert_eq!(nameless.heading, "Entity 5 · 0 children");
    assert_eq!(inspector_data(7, None, None).heading, "");
}

#[test]
fn row_reordering_preserves_widgets_and_removed_rows_are_despawned() {
    let children = vec![Entity(1), Entity(2), Entity(3), Entity(4)];
    let order = vec![Entity(3), Entity(1)];
    assert_eq!(
        order_inspector_children(&children, &order),
        vec![Entity(3), Entity(1), Entity(2), Entity(4)]
    );
}

#[test]
fn errors_name_themselves() {
    assert_eq!(EditError::StaleEditor.describe(), "StaleEditor");
    assert_eq!(EditError::Rejected.describe(), "Rejected");
}

#[test]
fn metadata_tracks_live_names_children_and_removal_without_changing_selection() {
    let target = Entity::from_parts(2, 0);
    let data = inspector_data(1, Some(target), Some(SelectedEntity { name: None, children: 0, root_address: None }));
    assert_eq!(data.entity, Some(target));
    let renamed = inspector_data(1, Some(target), Some(SelectedEntity { name: Some("Renamed".into()), children: 1, root_address: None }));
    assert!(renamed.heading.starts_with("Renamed"));
    assert!(renamed.heading.ends_with("1 children"));
    let gone = inspector_data(1, Some(target), None);
    assert!(gone.entity.is_none());
    assert_eq!(gone.heading, "Selection is no longer in the world.");
}

const SETTING: u64 = 200;
const SETTING_EDITOR: u64 = 60;
const SETTING_EDIT: u64 = 61;

fn setting() -> Editable {
    Editable::Composite {
        type_id: SETTING,
        fields: vec![
            field("title", Editable::Leaf { type_id: 300, slot: 4 }),
            field("enabled", Editable::Leaf { type_id: 301, slot: 5 }),
        ],
    }
}

#[test]
fn root_editors_and_owned_snapshots_work_without_cloning_the_domain_type() {
    let mut registry = InspectorRegistry::default();
    registry.register_component(SETTING, "fixture::Setting");
    registry.register_property_editor(SETTING, SETTING_EDITOR, SETTING_EDIT);
    let value = setting();
    let rows = registry.collect(&value);
    assert_eq!(rows.len(), 1);
    assert_eq!(rows[0].path.depth(), 0);
    let row = rows[0].row(Entity(9), SETTING);
    let edit = PropertyCommit::new(row, SETTING, SETTING_EDITOR, SETTING_EDIT).unwrap();
    // A root editor edits the whole value: the target is the composite itself.
    assert_eq!(apply_property_commit(&registry, &edit, Some(&value)), Ok(None));
}

#[test]
fn commits_use_captured_entity_and_live_value_and_validate_before_mutation() {
    let registry = registry();
    let value = transform();
    let translation = registry.collect(&value)[0].row(Entity(1), TRANSFORM);
    assert_eq!(translation.entity, Entity(1));
    let edit = PropertyCommit::new(translation, VEC3, NUMERIC_FIELDS, NUMERIC_EDIT).unwrap();
    assert_eq!(apply_property_commit(&registry, &edit, Some(&value)), Ok(Some(0)));
    // The target entity lost the component: nothing is written.
    assert_eq!(apply_property_commit(&registry, &edit, None), Err(EditError::MissingTarget));
    let wrong_payload = PropertyCommit { row: registry.collect(&value)[2].row(Entity(1), TRANSFORM), edit_type: 99 };
    assert_eq!(apply_property_commit(&registry, &wrong_payload, Some(&value)), Err(EditError::TypeMismatch));
}

#[test]
fn queued_edits_drain_in_order_against_live_components() {
    let registry = registry();
    let live = PropertyCommit::new(translation_row(&registry, Entity(1)), VEC3, NUMERIC_FIELDS, NUMERIC_EDIT).unwrap();
    let gone = PropertyCommit::new(translation_row(&registry, Entity(2)), VEC3, NUMERIC_FIELDS, NUMERIC_EDIT).unwrap();
    let mut queue = vec![live, gone];
    let world = vec![(Entity(3), TRANSFORM, transform()), (Entity(1), TRANSFORM, transform())];
    let targets = apply_property_commits(&registry, &mut queue, &world);
    assert!(queue.is_empty());
    assert_eq!(targets, vec![Ok(Some(0)), Err(EditError::MissingTarget)]);
    assert!(apply_property_commits(&registry, &mut queue, &world).is_empty());
}

#[test]
fn collecting_a_component_needs_its_registration_and_presence() {
    let registry = registry();
    let value = transform();
    let rows = registry.collect_component(Some(&value), TRANSFORM).unwrap();
    assert_eq!(rows.len(), 3);
    assert_eq!(rows[2].path.depth(), 1);
    assert!(registry.collect_component(None, TRANSFORM).is_none());
    assert!(registry.collect_component(Some(&value), 999).is_none());
}
