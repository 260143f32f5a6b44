use editor::catalogue::{
    check_catalogue, check_catalogue_parts, name_entry, sort_catalogue, with_forward_slashes, CatalogueConfig,
    CatalogueError, PathPart,
};
use editor::entity::AssetId;
use editor::project::{AssetEntry, ImportProvenance};

fn config(root: &str, extension: &str) -> CatalogueConfig {
    CatalogueConfig { root: root.into(), extension: extension.into() }
}

#[test]
fn the_default_catalogue_is_content_in_gasset_files() {
    let config = CatalogueConfig::default();
    assert_eq!(config.root, "content");
    assert_eq!(config.extension, "gasset");
    assert_eq!(check_catalogue(&config), Ok(()));
}

#[test]
fn the_content_root_must_stay_inside_the_project() {
    assert_eq!(check_catalogue(&config("", "gasset")), Err(CatalogueError::ContentRoot));
    assert_eq!(check_catalogue(&config("../elsewhere", "gasset")), Err(CatalogueError::ContentRoot));
    assert_eq!(check_catalogue(&config("/absolute", "gasset")), Err(CatalogueError::ContentRoot));
    assert_eq!(check_catalogue(&config("./content", "gasset")), Err(CatalogueError::ContentRoot));
    assert_eq!(check_catalogue(&config("content/assets", "gasset")), Ok(()));
    assert_eq!(
        CatalogueError::ContentRoot.describe(),
        "Content root must be project-relative without parent traversal"
    );
}

#[test]
fn the_extension_is_a_bare_word() {
    assert_eq!(check_catalogue(&config("content", "")), Err(CatalogueError::ContentExtension));
    assert_eq!(check_catalogue(&config("content", ".gasset")), Err(CatalogueError::ContentExtension));
    assert_eq!(check_catalogue(&config("content", "a/b")), Err(CatalogueError::ContentExtension));
    assert_eq!(check_catalogue(&config("content", "a\\b")), Err(CatalogueError::ContentExtension));
    assert_eq!(CatalogueError::ContentExtension.describe(), "Invalid content extension");
}

#[test]
fn a_root_is_judged_before_the_extension() {
    let normal = vec![PathPart::Normal, PathPart::Normal];
    assert_eq!(check_catalogue_parts("a/b", &normal, "x"), Ok(()));
    assert_eq!(check_catalogue_parts("a/b", &normal, ""), Err(CatalogueError::ContentExtension));
    let parent = vec![PathPart::Normal, PathPart::ParentDir];
    assert_eq!(check_catalogue_parts("a/..", &parent, ""), Err(CatalogueError::ContentRoot));
    assert_eq!(check_catalogue_parts("", &vec![], "x"), Err(CatalogueError::ContentRoot));
}

#[test]
fn backslashes_become_slashes() {
    assert_eq!(with_forward_slashes("content\\props\\trees"), "content/props/trees");
    assert_eq!(with_forward_slashes("plain"), "plain");
}

#[test]
fn an_entry_is_named_after_its_stem_and_filed_under_its_parent() {
    let provenance = ImportProvenance { source: "assets/tree.glb".into(), sub_asset: "trunk".into() };
    let entry = name_entry(
        AssetId(5),
        "content/props/tree.gasset",
        "Mesh",
        provenance,
        Some("tree".into()),
        Some("content\\props".into()),
    );
    assert_eq!(entry.display_name, "tree");
    assert_eq!(entry.folder, "content/props");
    assert_eq!(entry.address, "content/props/tree.gasset");
    assert_eq!(entry.kind, "Mesh");
    assert_eq!(entry.provenance.sub_asset, "trunk");
    let bare = name_entry(
        AssetId(6),
        "odd",
        "Mesh",
        ImportProvenance { source: String::new(), sub_asset: String::new() },
        None,
        None,
    );
    assert_eq!(bare.display_name, "odd");
    assert_eq!(bare.folder, "");
}

fn asset(folder: &str, name: &str, kind: &str, address: &str, id: u128) -> AssetEntry {
    AssetEntry {
        id: AssetId(id),
        address: address.into(),
        kind: kind.into(),
        display_name: name.into(),
        folder: folder.into(),
        provenance: ImportProvenance { source: String::new(), sub_asset: String::new() },
    }
}

#[test]
fn the_listing_orders_by_folder_name_kind_then_address_and_keeps_ties_in_order() {
    let assets = vec![
        asset("b", "x", "Mesh", "b/x", 1),
        asset("a", "y", "Mesh", "a/y", 2),
        asset("a", "x", "Texture", "a/x2", 3),
        asset("a", "x", "Mesh", "a/x3", 4),
        asset("a", "x", "Mesh", "a/x1", 5),
        asset("a", "x", "Mesh", "a/x1", 6),
        asset("", "z", "Mesh", "z", 7),
        asset("a", "X", "Mesh", "a/X", 8),
    ];
    let listed: Vec<u128> = sort_catalogue(&assets).iter().map(|a| a.id.0).collect();
    assert_eq!(listed, vec![7, 8, 5, 6, 4, 3, 2, 1]);
}

#[test]
fn listing_a_listed_catalogue_changes_nothing() {
    let assets = vec![
        asset("b", "x", "Mesh", "b/x", 1),
        asset("a", "x", "Mesh", "a/x", 2),
        asset("a", "x", "Mesh", "a/x", 3),
    ];
    let once = sort_catalogue(&assets);
    let twice = sort_catalogue(&once);
    let ids = |v: &Vec<AssetEntry>| v.iter().map(|a| a.id.0).collect::<Vec<_>>();
    assert_eq!(ids(&once), vec![2, 3, 1]);
    assert_eq!(ids(&twice), ids(&once));
}
