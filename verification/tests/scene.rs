use editor::asset_editor::{process_editor_commands, AssetEditorCommand, AssetEditorRegistry, EditorDocument};
use editor::entity::{AssetId, Entity};
use editor::project::{AssetEntry, ImportProvenance};
use editor::scene::{
    check_scene_header, complete_scene_job, prepare_scene_job, SceneFileError, SceneJob, SceneStart, SceneState,
};

fn entry(name: &str) -> AssetEntry {
    AssetEntry {
        id: AssetId(name.bytes().fold(11u128, |h, b| h.wrapping_mul(131).wrapping_add(b as u128))),
        address: format!("content/{name}.gasset"),
        kind: "Scene".into(),
        display_name: name.into(),
        folder: "content".into(),
        provenance: ImportProvenance { source: format!("assets/{name}.glb"), sub_asset: String::new() },
    }
}

fn copy(d: &EditorDocument) -> EditorDocument {
    EditorDocument {
        asset_type: d.asset_type.clone(),
        title: d.title.clone(),
        current: d.current.clone(),
        pending: d.pending.clone(),
        project_generation: d.project_generation,
        request_generation: d.request_generation,
        order: d.order,
        status: d.status.clone(),
    }
}

/// The scene editor's document, the load it runs, and the preview it shows,
/// driven as the frame loop would drive them.
struct Scenes {
    registry: AssetEditorRegistry,
    project: u64,
    root: Option<String>,
    documents: Vec<(Entity, EditorDocument)>,
    active: Option<Entity>,
    next: u64,
    job: Option<SceneJob>,
    shown: Option<AssetId>,
    summary: SceneState,
}

impl Scenes {
    fn new() -> Scenes {
        let mut registry = AssetEditorRegistry::new();
        registry.register("Scene".to_string()).unwrap();
        Scenes {
            registry,
            project: 1,
            root: Some("/projects/demo".to_string()),
            documents: Vec::new(),
            active: None,
            next: 1,
            job: None,
            shown: None,
            summary: SceneState::default(),
        }
    }

    fn run(&mut self, commands: Vec<AssetEditorCommand>) {
        let documents = std::mem::take(&mut self.documents);
        let batch = process_editor_commands(commands, &self.registry, self.project, self.active, documents, self.next);
        self.active = batch.active;
        self.next = batch.next_entity;
        self.documents = batch.documents.iter().map(|(e, d)| (*e, copy(d))).collect();
    }

    fn open(&mut self, asset: &AssetEntry) -> Entity {
        self.run(vec![AssetEditorCommand::Open { asset: asset.clone(), project_generation: 1 }]);
        self.active.unwrap()
    }

    fn doc(&mut self, e: Entity) -> &mut EditorDocument {
        &mut self.documents.iter_mut().find(|(x, _)| *x == e).unwrap().1
    }

    /// One frame of the scene editor: start what the document asks for.
    fn start(&mut self, e: Entity) -> SceneStart {
        let project = self.project;
        let root = self.root.clone();
        let mut job = self.job;
        let start = prepare_scene_job(self.doc(e), &mut job, project, root.as_ref());
        self.job = job;
        start
    }

    /// The running load finishes with `result`.
    fn finish(&mut self, e: Entity, result: Result<(), String>) -> bool {
        let job = self.job.take().unwrap();
        let project = self.project;
        let pending = self.doc(e).pending.as_ref().map(|a| a.id);
        let replace = complete_scene_job(self.doc(e), job, project, result);
        if replace {
            self.shown = pending;
        }
        replace
    }

    fn settle(&mut self, e: Entity) {
        if let SceneStart::Load { .. } = self.start(e) {
            self.finish(e, Ok(()));
        }
    }
}

#[test]
fn successful_replacement_reuses_tab_discards_edits_and_keeps_helpers() {
    let mut w = Scenes::new();
    let a = entry("first");
    let b = entry("second");
    let editor = w.open(&a);
    w.settle(editor);
    assert_eq!(w.shown, Some(a.id));
    assert_eq!(w.open(&a), editor);
    assert!(matches!(w.start(editor), SceneStart::Idle));
    assert_eq!(w.open(&b), editor);
    assert_eq!(w.shown, Some(a.id));
    w.settle(editor);
    assert_eq!(w.shown, Some(b.id));
    assert_eq!(w.documents.len(), 1);
    assert_eq!(w.doc(editor).current.as_ref().unwrap().id, b.id);
}

#[test]
fn failed_replacement_retains_live_edits_selection_and_camera() {
    let mut w = Scenes::new();
    let a = entry("first");
    let bad = entry("missing");
    let editor = w.open(&a);
    w.settle(editor);
    w.open(&bad);
    assert!(matches!(w.start(editor), SceneStart::Load { .. }));
    assert!(!w.finish(editor, Err("No such file".to_string())));
    assert_eq!(w.shown, Some(a.id));
    let doc = w.doc(editor);
    assert_eq!(doc.current.as_ref().unwrap().id, a.id);
    assert!(doc.pending.is_none());
    assert!(doc.status.contains("Could not open scene"));
}

#[test]
fn canceled_and_superseded_workers_cannot_replace_the_preview() {
    let mut w = Scenes::new();
    let a = entry("a");
    let b = entry("b");
    let c = entry("c");
    let editor = w.open(&a);
    w.settle(editor);
    w.open(&b);
    assert!(matches!(w.start(editor), SceneStart::Load { .. }));
    let superseded = w.job.unwrap();
    w.open(&a);
    // The load of `b` no longer serves the document: the next frame drops it.
    assert!(matches!(w.start(editor), SceneStart::Idle));
    assert!(w.job.is_none());
    let project = w.project;
    assert!(!complete_scene_job(w.doc(editor), superseded, project, Ok(())));
    assert_eq!(w.doc(editor).current.as_ref().unwrap().id, a.id);
    w.open(&b);
    w.open(&c);
    w.settle(editor);
    assert_eq!(w.shown, Some(c.id));
    w.open(&b);
    w.run(vec![AssetEditorCommand::CloseAll]);
    assert!(w.documents.is_empty());
    assert!(w.active.is_none());
    w.summary.show(editor, &EditorDocument {
        asset_type: "Scene".into(),
        title: "c".into(),
        current: Some(c.clone()),
        pending: None,
        project_generation: 1,
        request_generation: 1,
        order: 1,
        status: String::new(),
    });
    assert!(w.summary.vacate());
    assert!(w.summary.document().is_none());
}

#[test]
fn finished_worker_from_old_project_cannot_replace_scene() {
    let mut w = Scenes::new();
    let a = entry("a");
    let b = entry("b");
    let editor = w.open(&a);
    w.settle(editor);
    w.open(&b);
    let request = w.doc(editor).request_generation;
    let job = SceneJob { request, project: 1 };
    w.project = 2;
    assert!(!complete_scene_job(w.doc(editor), job, 2, Ok(())));
    assert_eq!(w.doc(editor).current.as_ref().unwrap().id, a.id);
    let mut running = Some(job);
    let root = w.root.clone();
    let start = prepare_scene_job(w.doc(editor), &mut running, 2, root.as_ref());
    assert!(running.is_none());
    assert!(matches!(start, SceneStart::Idle));
}

#[test]
fn close_and_reopen_in_one_update_clears_old_scene_selection() {
    let mut w = Scenes::new();
    let a = entry("a");
    let editor = w.open(&a);
    w.settle(editor);
    let shown = copy(w.doc(editor));
    assert!(!w.summary.show(editor, &shown));
    w.run(vec![
        AssetEditorCommand::CloseAll,
        AssetEditorCommand::Open { asset: entry("missing"), project_generation: 1 },
    ]);
    let reopened = w.active.unwrap();
    assert_ne!(reopened, editor);
    let doc = copy(w.doc(reopened));
    // A different document is shown: the old scene's selection must go.
    assert!(w.summary.show(reopened, &doc));
    assert!(w.summary.loading());
}

#[test]
fn loader_rejects_wrong_identity_kind_and_corrupt_payload() {
    let asset = entry("a");
    assert_eq!(check_scene_header(asset.id, "Scene", AssetId(7)), Err(SceneFileError::IdentityChanged));
    assert_eq!(check_scene_header(asset.id, "Other", asset.id), Err(SceneFileError::NotAScene));
    assert_eq!(check_scene_header(asset.id, "Scene", asset.id), Ok(()));
    assert_eq!(
        SceneFileError::IdentityChanged.describe(),
        "Asset identity changed; refresh the project catalogue"
    );
    assert_eq!(SceneFileError::NotAScene.describe(), "Selected asset is not a Scene");
}

#[test]
fn a_scene_without_a_project_fails_at_once() {
    let mut w = Scenes::new();
    let editor = w.open(&entry("a"));
    w.root = None;
    assert!(matches!(w.start(editor), SceneStart::NoProject));
    let doc = w.doc(editor);
    assert!(doc.pending.is_none());
    assert_eq!(doc.status, "Open a project before opening a scene");
}

#[test]
fn a_load_asks_for_the_pending_address_under_the_project_root() {
    let mut w = Scenes::new();
    let a = entry("a");
    let editor = w.open(&a);
    match w.start(editor) {
        SceneStart::Load { root, address, id } => {
            assert_eq!(root, "/projects/demo");
            assert_eq!(address, "content/a.gasset");
            assert_eq!(id, a.id);
        }
        _ => panic!("expected a load"),
    }
    // While it runs, nothing new starts.
    assert!(matches!(w.start(editor), SceneStart::Idle));
}
