use editor::catalogue::{build_catalogue, FoundAsset};
use editor::entity::AssetId;
use editor::project::{
    AssetEntry, EditorCommand, ImportProvenance, Project, ProjectAction, ProjectOutcome, ProjectState,
};

fn found(name: &str, kind: &str, imported: bool, id: u128) -> FoundAsset {
    FoundAsset {
        id: AssetId(id),
        address: format!("content/{name}.gasset"),
        kind: kind.into(),
        provenance: if imported {
            Some(ImportProvenance { source: "assets/model.glb".into(), sub_asset: name.into() })
        } else {
            None
        },
    }
}

fn entry(name: &str, folder: &str, kind: &str, id: u128) -> AssetEntry {
    AssetEntry {
        id: AssetId(id),
        address: format!("{folder}/{name}.gasset"),
        kind: kind.into(),
        display_name: name.into(),
        folder: folder.into(),
        provenance: ImportProvenance { source: format!("assets/{name}.glb"), sub_asset: String::new() },
    }
}

#[test]
fn discovers_only_scenes_without_writing_registry() {
    let empty = build_catalogue("/projects/demo".into(), &vec![]);
    assert_eq!(empty.scenes().len(), 0);
    let findings = vec![found("scene", "Scene", true, 41), found("mesh", "Mesh", true, 42), found("authored", "Scene", false, 43)];
    let project = build_catalogue("/projects/demo".into(), &findings);
    assert_eq!(project.assets.len(), 2);
    assert_eq!(project.scenes()[0].id, AssetId(41));
    assert_eq!(project.assets[0].folder, "content");
    assert_eq!(project.filtered_assets("mesh", None, None).len(), 1);
    assert_eq!(project.filtered_assets("", None, Some("Scene")).len(), 1);
    assert_eq!(project.filtered_assets("", Some("missing"), None).len(), 0);
}

#[test]
fn catalogue_entries_are_named_after_their_files_and_listed_by_folder_then_name() {
    let findings = vec![
        found("zebra", "Mesh", true, 1),
        FoundAsset {
            id: AssetId(2),
            address: "content/props/apple.gasset".into(),
            kind: "Mesh".into(),
            provenance: Some(ImportProvenance { source: "assets/apple.glb".into(), sub_asset: "apple".into() }),
        },
        found("apple", "Texture", true, 3),
        found("apple", "Mesh", true, 4),
    ];
    let project = build_catalogue("/p".into(), &findings);
    let listed: Vec<(String, String, String)> = project
        .assets
        .iter()
        .map(|a| (a.folder.clone(), a.display_name.clone(), a.kind.clone()))
        .collect();
    assert_eq!(
        listed,
        vec![
            ("content".to_string(), "apple".to_string(), "Mesh".to_string()),
            ("content".to_string(), "apple".to_string(), "Texture".to_string()),
            ("content".to_string(), "zebra".to_string(), "Mesh".to_string()),
            ("content/props".to_string(), "apple".to_string(), "Mesh".to_string()),
        ]
    );
    assert_eq!(project.root, "/p");
}

#[test]
fn filters_combine_folder_kind_and_a_case_blind_query() {
    let project = Project {
        root: "/p".into(),
        assets: vec![
            entry("Tree", "content/nature", "Mesh", 1),
            entry("Bark", "content/nature/wood", "Texture", 2),
            entry("Level", "content", "Scene", 3),
            entry("Naturalist", "content/natures", "Mesh", 4),
        ],
    };
    let ids = |found: Vec<&AssetEntry>| found.iter().map(|a| a.id.0).collect::<Vec<_>>();
    assert_eq!(ids(project.filtered_assets("", Some("content/nature"), None)), vec![1, 2]);
    assert_eq!(ids(project.filtered_assets("", Some(""), None)), vec![1, 2, 3, 4]);
    assert_eq!(ids(project.filtered_assets("TREE", None, None)), vec![1]);
    assert_eq!(ids(project.filtered_assets("texture", None, None)), vec![2]);
    assert_eq!(ids(project.filtered_assets("", None, Some("Mesh"))), vec![1, 4]);
    assert_eq!(ids(project.filtered_assets("natur", Some("content/natures"), Some("Mesh"))), vec![4]);
    assert_eq!(ids(project.scenes()), vec![3]);
}

#[test]
fn a_new_state_invites_a_project() {
    let state = ProjectState::default();
    assert_eq!(state.status(), "Choose a project folder to get started.");
    assert!(!state.busy());
    assert_eq!(state.revision(), 0);
    assert_eq!(state.generation(), 0);
    assert!(state.project().is_none());
}

#[test]
fn opening_a_project_starts_a_search_and_drops_commands_while_it_runs() {
    let mut state = ProjectState::new();
    let actions = state.process_commands(vec![
        EditorCommand::OpenProject("/projects/demo".into()),
        EditorCommand::OpenProject("/projects/other".into()),
    ]);
    assert_eq!(actions.len(), 1);
    assert!(matches!(&actions[0], ProjectAction::Discover(path) if path == "/projects/demo"));
    assert!(state.busy());
    assert_eq!(state.status(), "Opening project…");
    assert_eq!(state.revision(), 1);
}

#[test]
fn a_finished_search_opens_the_project_and_counts_its_scenes() {
    let mut state = ProjectState::new();
    state.process_commands(vec![EditorCommand::OpenProject("/p".into())]);
    let project = Project {
        root: "/p".into(),
        assets: vec![entry("level", "content", "Scene", 1), entry("tree", "content", "Mesh", 2)],
    };
    assert!(state.finish(ProjectOutcome::Opened(project), None));
    assert!(!state.busy());
    assert_eq!(state.generation(), 1);
    assert_eq!(state.status(), "2 imported assets · 1 scenes · /p");
    let actions = state.process_commands(vec![EditorCommand::OpenScene(AssetId(1)), EditorCommand::OpenScene(AssetId(2))]);
    assert_eq!(actions.len(), 1);
    assert!(matches!(&actions[0], ProjectAction::OpenScene { root, address, id }
        if root == "/p" && address == "content/level.gasset" && *id == AssetId(1)));
}

#[test]
fn failed_and_cancelled_searches_keep_the_open_project() {
    let mut state = ProjectState::new();
    state.process_commands(vec![EditorCommand::OpenProject("/p".into())]);
    assert!(!state.finish(ProjectOutcome::Failed("no content".into()), None));
    assert_eq!(state.status(), "Could not open project: no content");
    assert_eq!(state.generation(), 0);
    state.process_commands(vec![EditorCommand::OpenProject("/p".into())]);
    assert!(!state.finish(ProjectOutcome::Cancelled, None));
    assert_eq!(state.status(), "Folder selection cancelled.");
    state.process_commands(vec![EditorCommand::OpenProject("/p".into())]);
    let project = Project { root: "/p".into(), assets: vec![] };
    assert!(!state.finish(ProjectOutcome::Opened(project), Some("duplicate id".into())));
    assert_eq!(state.status(), "Could not activate project assets: duplicate id");
    assert!(state.project().is_none());
}

#[test]
fn scene_commands_leave_the_open_project_alone() {
    let mut state = ProjectState::new();
    state.process_commands(vec![EditorCommand::OpenProject("/p".into())]);
    let project = Project { root: "/p".into(), assets: vec![entry("level", "content", "Scene", 1)] };
    state.finish(ProjectOutcome::Opened(project), None);
    let generation = state.generation();
    let actions = state.process_commands(vec![
        EditorCommand::OpenScene(AssetId(1)),
        EditorCommand::OpenScene(AssetId(9)),
        EditorCommand::OpenScene(AssetId(1)),
    ]);
    assert_eq!(actions.len(), 2);
    assert_eq!(state.generation(), generation);
    assert_eq!(state.project().unwrap().root, "/p");
}

#[test]
fn an_entry_is_named_after_its_file_and_filed_under_its_folder() {
    let findings = vec![FoundAsset {
        id: AssetId(8),
        address: "textures/wood.png".into(),
        kind: "Texture".into(),
        provenance: Some(ImportProvenance { source: "assets/wood.png".into(), sub_asset: String::new() }),
    }];
    let project = build_catalogue("/p".into(), &findings);
    assert_eq!(project.assets[0].display_name, "wood");
    assert_eq!(project.assets[0].folder, "textures");
}
