use editor::content::{asset_count_label, kind_filter, kind_label, ContentState, KIND_COUNT};
use editor::entity::AssetId;
use editor::marks::{asset_mark, entity_mark, Mark};
use editor::project::{AssetEntry, ImportProvenance, Project};

fn entry(name: &str, kind: &str, id: u128) -> AssetEntry {
    AssetEntry {
        id: AssetId(id),
        address: format!("content/{name}.gasset"),
        kind: kind.into(),
        display_name: name.into(),
        folder: "content".into(),
        provenance: ImportProvenance { source: String::new(), sub_asset: String::new() },
    }
}

fn project() -> Project {
    Project {
        root: "/p".into(),
        assets: vec![entry("Level", "Scene", 1), entry("Tree", "Mesh", 2), entry("Bark", "Texture", 3), entry("Rock", "Mesh", 4)],
    }
}

#[test]
fn tags_filter_by_kind_and_label_themselves() {
    assert_eq!(KIND_COUNT, 5);
    let kinds: Vec<Option<&str>> = (0..KIND_COUNT).map(kind_filter).collect();
    assert_eq!(kinds, [None, Some("Scene"), Some("Mesh"), Some("Texture"), Some("Material")]);
    let labels: Vec<&str> = (0..KIND_COUNT).map(kind_label).collect();
    assert_eq!(labels, ["all", "scene", "mesh", "tex", "mat"]);
}

#[test]
fn the_panel_lists_the_tagged_kind_matching_the_search() {
    let project = project();
    let mut state = ContentState::new();
    assert!(state.visible_assets(None).is_empty());
    assert_eq!(state.visible_assets(Some(&project)).len(), 4);
    state.select_kind(2, false);
    let ids: Vec<u128> = state.visible_assets(Some(&project)).iter().map(|a| a.id.0).collect();
    assert_eq!(ids, [2, 4]);
    state.set_filter("RO".to_string());
    let ids: Vec<u128> = state.visible_assets(Some(&project)).iter().map(|a| a.id.0).collect();
    assert_eq!(ids, [4]);
}

#[test]
fn a_click_selects_and_opens_the_asset_under_it() {
    let project = project();
    let mut state = ContentState::default();
    state.sync_visible(1, 3);
    let listed = state.visible_assets(Some(&project));
    assert_eq!(state.click_asset(&listed, 0, false), Some(AssetId(2)));
    assert_eq!(state.selected(), Some(AssetId(2)));
    assert!(state.slot_selected(&listed, 0));
    assert!(!state.slot_selected(&listed, 1));
    assert_eq!(state.slot_mark(&listed, 0), Mark::Mesh);
    assert_eq!(state.slot_mark(&listed, 1), Mark::Texture);
    assert_eq!(state.slot_mark(&listed, 3), Mark::Empty);
    assert_eq!(state.click_asset(&listed, 10, false), None);
    assert_eq!(state.selected(), Some(AssetId(2)));
    // A different tag is a different list: the pool mapping starts over.
    state.select_kind(1, false);
    assert_eq!(state.kind(), 1);
    let listed = state.visible_assets(Some(&project));
    assert_eq!(state.click_asset(&listed, 0, false), Some(AssetId(1)));
}

#[test]
fn clicks_wait_while_the_project_is_searched() {
    let project = project();
    let mut state = ContentState::default();
    state.sync_visible(0, 4);
    state.select_kind(2, true);
    assert_eq!(state.kind(), 0);
    let listed = state.visible_assets(Some(&project));
    assert_eq!(state.click_asset(&listed, 1, true), None);
    assert_eq!(state.selected(), None);
    assert_eq!(state.click_asset(&listed, 1, false), Some(AssetId(2)));
    assert_eq!(state.selected(), Some(AssetId(2)));
}

#[test]
fn the_count_line_counts_listed_assets() {
    assert_eq!(asset_count_label(0), "");
    assert_eq!(asset_count_label(1), "1 assets");
    assert_eq!(asset_count_label(120), "120 assets");
}

#[test]
fn marks_follow_kinds_and_components() {
    assert_eq!(asset_mark("Scene"), Mark::Group);
    assert_eq!(asset_mark("Mesh"), Mark::Mesh);
    assert_eq!(asset_mark("Texture"), Mark::Texture);
    assert_eq!(asset_mark("Material"), Mark::Material);
    assert_eq!(asset_mark("Animation"), Mark::Plain);
    assert_eq!(entity_mark(true, true, false, false, false), Mark::Group);
    assert_eq!(entity_mark(false, true, true, false, false), Mark::Camera);
    assert_eq!(entity_mark(false, false, true, true, false), Mark::Light);
    assert_eq!(entity_mark(false, false, false, true, true), Mark::Mesh);
    assert_eq!(entity_mark(false, false, false, false, true), Mark::Group);
    assert_eq!(entity_mark(false, false, false, false, false), Mark::Plain);
}
