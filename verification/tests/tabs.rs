use editor::asset_editor::{AssetEditorCommand, EditorDocument};
use editor::entity::{AssetId, Entity};
use editor::inspector::{InspectorScroll, PropertyRowValue, Snapshot};
use editor::project::{AssetEntry, ImportProvenance};
use editor::tabs::{plan_tabs, tab_click, tab_glyph, tab_order, tab_title};

fn document(order: u64) -> EditorDocument {
    EditorDocument {
        asset_type: "Document".into(),
        title: format!("Document {order}"),
        current: None,
        pending: None,
        project_generation: 1,
        request_generation: 1,
        order,
        status: String::new(),
    }
}

fn asset(name: &str, kind: &str) -> AssetEntry {
    AssetEntry {
        id: AssetId(1),
        address: format!("content/{name}.gasset"),
        kind: kind.into(),
        display_name: name.into(),
        folder: "content".into(),
        provenance: ImportProvenance { source: String::new(), sub_asset: String::new() },
    }
}

#[test]
fn tabs_build_in_order_inside_scroll_content_and_route_clicks() {
    // The later document is listed first; the tabs stand by opening order.
    let orders = vec![document(20).order, document(10).order];
    assert_eq!(tab_order(&orders), vec![1, 0]);
    let later = Entity(1);
    let earlier = Entity(2);
    assert!(matches!(tab_click(None, Some(later)), Some(AssetEditorCommand::Activate(e)) if e == later));
    assert!(matches!(tab_click(Some(earlier), Some(earlier)), Some(AssetEditorCommand::Close(e)) if e == earlier));
    assert!(tab_click(None, None).is_none());
}

#[test]
fn documents_opened_together_keep_their_listed_order() {
    assert_eq!(tab_order(&vec![3, 1, 3, 2, 1]), vec![1, 4, 3, 0, 2]);
    assert_eq!(tab_order(&vec![]), Vec::<usize>::new());
}

#[test]
fn a_tab_names_what_its_document_shows() {
    let mut doc = document(1);
    assert_eq!(tab_title(&doc), "Document 1");
    doc.status = "Could not open scene: missing".into();
    assert_eq!(tab_title(&doc), "Document 1 · error");
    doc.current = Some(asset("level", "Scene"));
    assert_eq!(tab_title(&doc), "level");
    assert_eq!(tab_glyph(&doc), '\u{E1DA}');
    doc.pending = Some(asset("bark", "Texture"));
    assert_eq!(tab_title(&doc), "bark ·");
    assert_eq!(tab_glyph(&doc), '\u{E2CA}');
    assert_eq!(tab_glyph(&document(2)), '\u{E230}');
}

#[test]
fn the_details_view_goes_back_to_the_top_when_the_data_changes() {
    let mut scroll = InspectorScroll::default();
    assert!(scroll.sync(1));
    assert!(!scroll.sync(1));
    assert!(scroll.sync(2));
}

#[test]
fn a_snapshot_is_read_only_by_the_editor_that_took_it() {
    let value = PropertyRowValue::new(7, 70, 42);
    assert_eq!(value.snapshot(7, 70), Some(42));
    assert_eq!(value.snapshot(7, 71), None);
    assert_eq!(value.snapshot(8, 70), None);
    assert_eq!(PropertyRowValue::default().snapshot(7, 70), None);
    assert_eq!(value, PropertyRowValue(Some(Snapshot { value_type: 7, editor_type: 70, data: 42 })));
    assert_ne!(value, PropertyRowValue::new(7, 70, 43));
    assert_eq!(PropertyRowValue::default(), PropertyRowValue(None));
}

#[test]
fn activation_updates_style_and_closed_documents_remove_buttons() {
    let a = Entity(1);
    let b = Entity(2);
    let first = plan_tabs(&vec![(b, 2), (a, 1)], &vec![], Some(a));
    assert_eq!(first.spawn, vec![a, b]);
    assert!(first.despawn.is_empty());
    assert_eq!(first.tabs, vec![(a, true), (b, false)]);
    let button_a = Entity(10);
    let button_b = Entity(11);
    let later = plan_tabs(&vec![(b, 2)], &vec![(button_a, a), (button_b, b)], Some(b));
    assert!(later.spawn.is_empty());
    assert_eq!(later.despawn, vec![button_a]);
    // b's button stays and is drawn as the active tab.
    assert_eq!(later.tabs, vec![(b, true)]);
}

#[test]
fn running_the_tab_plan_again_never_duplicates_a_tab() {
    let a = Entity(1);
    let b = Entity(2);
    let documents = vec![(a, 1), (b, 2)];
    let first = plan_tabs(&documents, &vec![], None);
    let buttons: Vec<(Entity, Entity)> =
        first.spawn.iter().enumerate().map(|(i, d)| (Entity(100 + i as u64), *d)).collect();
    let second = plan_tabs(&documents, &buttons, None);
    assert!(second.spawn.is_empty());
    assert!(second.despawn.is_empty());
    assert_eq!(buttons.len(), 2);
}
