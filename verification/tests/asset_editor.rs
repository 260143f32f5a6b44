use editor::asset_editor::{
    asset_request_is_current, finish_asset_request, process_editor_commands, AssetEditorCommand,
    AssetEditorRegistry, DocumentBatch, EditorDocument,
};
use editor::entity::{AssetId, Entity};
use editor::project::{AssetEntry, ImportProvenance};

fn id_of(path: &str) -> AssetId {
    AssetId(path.bytes().fold(7u128, |h, b| h.wrapping_mul(31).wrapping_add(b as u128)))
}

fn asset(path: &str) -> AssetEntry {
    AssetEntry {
        id: id_of(path),
        address: path.into(),
        kind: "TestAsset".into(),
        display_name: path.into(),
        folder: String::new(),
        provenance: ImportProvenance { source: path.into(), sub_asset: String::new() },
    }
}

fn open(asset: AssetEntry) -> AssetEditorCommand {
    AssetEditorCommand::Open { asset, project_generation: 1 }
}

/// The documents, the active tab, and the next entity number, as a world
/// holding them would keep them between batches.
struct World {
    registry: AssetEditorRegistry,
    generation: u64,
    documents: Vec<(Entity, EditorDocument)>,
    active: Option<Entity>,
    next: u64,
}

impl World {
    fn new() -> World {
        let mut registry = AssetEditorRegistry::new();
        registry.register("TestAsset".to_string()).unwrap();
        World { registry, generation: 1, documents: Vec::new(), active: None, next: 1 }
    }

    fn run(&mut self, commands: Vec<AssetEditorCommand>) -> DocumentBatch {
        let documents = std::mem::take(&mut self.documents);
        let batch = process_editor_commands(commands, &self.registry, self.generation, self.active, documents, self.next);
        self.active = batch.active;
        self.next = batch.next_entity;
        self.documents = batch.documents.iter().map(|(e, d)| (*e, copy(d))).collect();
        batch
    }

    fn open(&mut self, path: &str) -> Entity {
        self.run(vec![open(asset(path))]);
        self.active.unwrap()
    }

    fn doc(&mut self, e: Entity) -> Option<&mut EditorDocument> {
        self.documents.iter_mut().find(|(x, _)| *x == e).map(|(_, d)| d)
    }

    fn finish(&mut self, e: Entity, generation: u64, result: Result<(), String>) -> bool {
        let project = self.generation;
        match self.doc(e) {
            Some(doc) => finish_asset_request(doc, generation, project, result),
            None => false,
        }
    }
}

fn copy(d: &EditorDocument) -> EditorDocument {
    EditorDocument {
        asset_type: d.asset_type.clone(),
        title: d.title.clone(),
        current: d.current.clone(),
        pending: d.pending.clone(),
        project_generation: d.project_generation,
        request_generation: d.request_generation,
        order: d.order,
        status: d.status.clone(),
    }
}

#[test]
fn selecting_active_document_does_not_mark_active_resource_changed() {
    let mut w = World::new();
    let e = w.open("a");
    let batch = w.run(vec![AssetEditorCommand::Activate(e)]);
    assert_eq!(batch.active, Some(e));
    assert!(batch.changed.is_empty() && batch.created.is_empty());
}

#[test]
fn lifecycle_declares_scoped_access_and_batches_deferred_spawns() {
    let mut w = World::new();
    let batch = w.run(vec![open(asset("a")), open(asset("b"))]);
    let entity = w.active.unwrap();
    assert_eq!(batch.created, vec![entity]);
    assert_eq!(w.documents.len(), 1);
    let doc = w.doc(entity).unwrap();
    assert_eq!(doc.pending.as_ref().unwrap().id, id_of("b"));
    assert_eq!(doc.request_generation, 2);

    let batch = w.run(vec![
        AssetEditorCommand::CloseAll,
        open(asset("c")),
        AssetEditorCommand::CloseAll,
        open(asset("d")),
    ]);
    assert!(batch.closed.contains(&entity));
    assert_eq!(w.documents.len(), 1);
    let current = w.active.unwrap();
    assert_ne!(current, entity);
    assert_eq!(w.doc(current).unwrap().pending.as_ref().unwrap().id, id_of("d"));
}

#[test]
fn completion_rejects_changed_project_without_mutating_document() {
    let mut w = World::new();
    let e = w.open("a");
    w.generation = 2;
    assert!(!w.finish(e, 1, Ok(())));
    let doc = w.doc(e).unwrap();
    assert!(doc.current.is_none());
    assert!(doc.pending.is_some());
}

#[test]
fn one_document_and_stale_generation() {
    let mut w = World::new();
    let e = w.open("a");
    let g = w.doc(e).unwrap().request_generation;
    assert!(w.finish(e, g, Ok(())));
    w.run(vec![open(asset("b"))]);
    let g = w.doc(e).unwrap().request_generation;
    w.run(vec![open(asset("b"))]);
    assert_eq!(w.doc(e).unwrap().request_generation, g);
    assert!(w.doc(e).unwrap().pending.is_some());
    w.run(vec![open(asset("a"))]);
    assert!(!w.finish(e, g, Ok(())));
    assert_eq!(w.active, Some(e));
}

#[test]
fn failed_replacement_keeps_current_and_stale_project_is_ignored() {
    let mut w = World::new();
    let e = w.open("a");
    let g = w.doc(e).unwrap().request_generation;
    assert!(w.finish(e, g, Ok(())));
    w.run(vec![open(asset("b"))]);
    let g = w.doc(e).unwrap().request_generation;
    assert!(w.finish(e, g, Err("bad".to_string())));
    assert_eq!(w.doc(e).unwrap().current.as_ref().unwrap().id, id_of("a"));
    assert_eq!(w.doc(e).unwrap().status, "bad");
    w.generation = 2;
    w.run(vec![open(asset("c"))]);
    assert_eq!(w.active, Some(e));
    assert!(w.doc(e).unwrap().pending.is_none());
}

#[test]
fn owned_tree_removed_on_close() {
    let mut w = World::new();
    let e = w.open("a");
    let batch = w.run(vec![AssetEditorCommand::Close(e)]);
    assert_eq!(batch.closed, vec![e]);
    assert!(w.documents.is_empty());
    assert_eq!(w.active, None);
}

#[test]
fn closing_prefers_left_neighbor_then_right_and_rejects_old_completions() {
    let mut w = World::new();
    w.registry.register("OtherAsset".to_string()).unwrap();
    w.registry.register("ThirdAsset".to_string()).unwrap();
    let a = w.open("a");
    let mut other = asset("other");
    other.kind = "OtherAsset".into();
    let mut third = asset("third");
    third.kind = "ThirdAsset".into();
    w.run(vec![open(other)]);
    let b = w.active.unwrap();
    w.run(vec![open(third)]);
    let c = w.active.unwrap();
    w.run(vec![AssetEditorCommand::Activate(b), AssetEditorCommand::Close(b)]);
    assert_eq!(w.active, Some(a));
    assert!(!w.finish(b, 1, Ok(())));
    w.run(vec![AssetEditorCommand::Close(a)]);
    assert_eq!(w.active, Some(c));
    w.run(vec![AssetEditorCommand::Close(c)]);
    assert!(w.active.is_none());
}

#[test]
fn unsupported_assets_do_not_open_tabs_and_duplicate_registration_is_rejected() {
    let mut w = World::new();
    let mut unknown = asset("unknown");
    unknown.kind = "Unknown".into();
    let mut unsupported = asset("other");
    unsupported.kind = "OtherAsset".into();
    w.run(vec![open(unknown), open(unsupported)]);
    assert!(w.active.is_none());
    assert_eq!(w.documents.len(), 0);
    assert!(w.registry.register("TestAsset".to_string()).is_err());
    assert!(w.registry.editor_kind(&"TestAsset".to_string()).is_some());
}

#[test]
fn reopening_the_current_asset_drops_the_pending_request() {
    let mut w = World::new();
    let e = w.open("a");
    let g = w.doc(e).unwrap().request_generation;
    assert!(w.finish(e, g, Ok(())));
    assert_eq!(w.doc(e).unwrap().title, "a");
    assert_eq!(w.doc(e).unwrap().status, "");
    w.run(vec![open(asset("b"))]);
    assert_eq!(w.doc(e).unwrap().status, "Opening b…");
    w.run(vec![open(asset("a"))]);
    let doc = w.doc(e).unwrap();
    assert!(doc.pending.is_none());
    assert_eq!(doc.status, "");
    assert_eq!(doc.request_generation, 3);
    assert!(!asset_request_is_current(doc, 3, 1));
}

#[test]
fn new_documents_are_numbered_and_ordered() {
    let mut w = World::new();
    w.registry.register("OtherAsset".to_string()).unwrap();
    let mut other = asset("o");
    other.kind = "OtherAsset".into();
    let batch = w.run(vec![open(asset("a")), open(other)]);
    assert_eq!(batch.created, vec![Entity(1), Entity(2)]);
    assert_eq!(batch.next_entity, 3);
    assert_eq!(w.doc(Entity(1)).unwrap().order, 1);
    assert_eq!(w.doc(Entity(2)).unwrap().order, 2);
    assert_eq!(w.doc(Entity(1)).unwrap().status, "Opening a…");
}
