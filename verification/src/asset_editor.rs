//! Lifecycle and registration for asset editors.
//!
//! An editor is a single, type-owned document: opening another asset of the
//! same type replaces the document's contents instead of creating another one.
//! The decisions live here; the world that owns the document entities applies
//! the batch that [`process_editor_commands`] hands back.
use vstd::prelude::*;
use vstd::string::StringExecFns;

use crate::entity::{AssetId, Entity};
use crate::project::{entry_option_view, AssetEntry, AssetEntryView};

verus! {

/// Registered asset editors, keyed by asset type. Each type has at most one.
pub struct AssetEditorRegistry {
    kinds: Vec<String>,
}

/// A second editor was offered for an asset type that already has one.
#[derive(Debug, Clone, Copy, PartialEq, Eq, Structural)]
pub struct AlreadyRegistered;

impl AssetEditorRegistry {
    /// The asset types that have an editor, in registration order.
    pub closed spec fn kinds_view(&self) -> Seq<Seq<char>> {
        self.kinds@.map_values(|k: String| k@)
    }

    /// No asset type is registered twice.
    pub open spec fn wf(&self) -> bool {
        self.kinds_view().no_duplicates()
    }

    pub fn new() -> (registry: Self)
        ensures
            registry.wf(),
            registry.kinds_view() == Seq::<Seq<char>>::empty(),
    {
        let registry = AssetEditorRegistry { kinds: Vec::new() };
        assert(registry.kinds_view() =~= Seq::<Seq<char>>::empty());
        registry
    }

    /// Registers an editor for `kind`; a type that already has one is refused
    /// and the registry is left as it was.
    pub fn register(&mut self, kind: String) -> (result: Result<(), AlreadyRegistered>)
        requires
            old(self).wf(),
        ensures
            final(self).wf(),
            old(self).kinds_view().contains(kind@) <==> result is Err,
            result is Err ==> final(self).kinds_view() == old(self).kinds_view(),
            result is Ok ==> final(self).kinds_view() == old(self).kinds_view().push(kind@),
    {
        if self.editor_kind(&kind).is_some() {
            return Err(AlreadyRegistered);
        }
        let ghost before = self.kinds_view();
        self.kinds.push(kind);
        assert(self.kinds_view() =~= before.push(kind@));
        Ok(())
    }

    /// Returns the registered asset type matching `kind`, if it has an editor.
    pub fn editor_kind(&self, kind: &String) -> (found: Option<String>)
        ensures
            found is Some <==> self.kinds_view().contains(kind@),
            found matches Some(k) ==> k@ == kind@,
    {
        let mut i: usize = 0;
        while i < self.kinds.len()
            invariant
                0 <= i <= self.kinds@.len(),
                forall|j: int| 0 <= j < i ==> self.kinds_view()[j] != kind@,
            decreases self.kinds@.len() - i,
        {
            if self.kinds[i] == *kind {
                assert(self.kinds_view()[i as int] == kind@);
                return Some(self.kinds[i].clone());
            }
            i = i + 1;
        }
        proof {
            if self.kinds_view().contains(kind@) {
                let j = choose|j: int| 0 <= j < self.kinds_view().len() && self.kinds_view()[j] == kind@;
                assert(self.kinds_view()[j] != kind@);
            }
        }
        None
    }
}

/// One open editor tab: the document a type-owned editor shows.
#[derive(Debug)]
pub struct EditorDocument {
    pub asset_type: String,
    /// Tab title retained even if the initial load fails.
    pub title: String,
    pub current: Option<AssetEntry>,
    pub pending: Option<AssetEntry>,
    pub project_generation: u64,
    pub request_generation: u64,
    pub order: u64,
    pub status: String,
}

/// What an [`EditorDocument`] holds.
pub struct DocumentView {
    pub asset_type: Seq<char>,
    pub title: Seq<char>,
    pub current: Option<AssetEntryView>,
    pub pending: Option<AssetEntryView>,
    pub project_generation: u64,
    pub request_generation: u64,
    pub order: u64,
    pub status: Seq<char>,
}

impl View for EditorDocument {
    type V = DocumentView;

    open spec fn view(&self) -> DocumentView {
        DocumentView {
            asset_type: self.asset_type@,
            title: self.title@,
            current: entry_option_view(self.current),
            pending: entry_option_view(self.pending),
            project_generation: self.project_generation,
            request_generation: self.request_generation,
            order: self.order,
            status: self.status@,
        }
    }
}

/// Whether an asynchronous result for request `generation`, finishing while
/// the project is at `project_generation`, still belongs to the document.
pub open spec fn request_is_current(doc: DocumentView, generation: u64, project_generation: u64) -> bool {
    &&& doc.request_generation == generation
    &&& doc.pending is Some
    &&& doc.project_generation == project_generation
}

/// Check before applying asynchronous results to the live presentation.
pub fn asset_request_is_current(doc: &EditorDocument, generation: u64, project_generation: u64) -> (current: bool)
    ensures
        current == request_is_current(doc@, generation, project_generation),
{
    doc.request_generation == generation && doc.pending.is_some() && doc.project_generation == project_generation
}

/// Complete a request. Pass the project's current generation, not the one
/// captured when the work started. A stale request changes nothing and
/// answers `false`. On success the pending asset becomes the current one (and
/// names the tab); on failure the message becomes the status and the current
/// asset stays.
pub fn finish_asset_request(
    doc: &mut EditorDocument,
    generation: u64,
    project_generation: u64,
    result: Result<(), String>,
) -> (applied: bool)
    ensures
        applied == request_is_current(old(doc)@, generation, project_generation),
        !applied ==> final(doc)@ == old(doc)@,
        applied && result is Ok ==> final(doc)@ == (DocumentView {
            current: old(doc)@.pending,
            pending: None,
            title: old(doc)@.pending.unwrap().display_name,
            status: Seq::<char>::empty(),
            ..old(doc)@
        }),
        applied && result is Err ==> final(doc)@ == (DocumentView {
            pending: None,
            status: result.unwrap_err()@,
            ..old(doc)@
        }),
{
    if !asset_request_is_current(doc, generation, project_generation) {
        return false;
    }
    match result {
        Ok(()) => {
            doc.current = doc.pending.take();
            if let Some(asset) = &doc.current {
                doc.title = asset.display_name.clone();
            }
            doc.status = String::new();
        },
        Err(message) => {
            doc.status = message;
            doc.pending = None;
        },
    }
    true
}

/// A request to the tab strip.
#[derive(Debug)]
pub enum AssetEditorCommand {
    Open { asset: AssetEntry, project_generation: u64 },
    Activate(Entity),
    Close(Entity),
    CloseAll,
}

pub enum CommandView {
    Open { asset: AssetEntryView, project_generation: u64 },
    Activate(Entity),
    Close(Entity),
    CloseAll,
}

impl View for AssetEditorCommand {
    type V = CommandView;

    open spec fn view(&self) -> CommandView {
        match self {
            AssetEditorCommand::Open { asset, project_generation } => CommandView::Open {
                asset: asset@,
                project_generation: *project_generation,
            },
            AssetEditorCommand::Activate(e) => CommandView::Activate(*e),
            AssetEditorCommand::Close(e) => CommandView::Close(*e),
            AssetEditorCommand::CloseAll => CommandView::CloseAll,
        }
    }
}

/// The documents as a command batch leaves them, with what it did to them.
pub struct Staging {
    pub docs: Seq<(Entity, DocumentView)>,
    pub active: Option<Entity>,
    /// Documents spawned by the batch, in the order they were spawned.
    pub created: Seq<Entity>,
    /// Documents whose contents the batch wrote, once per write.
    pub changed: Seq<Entity>,
    /// Documents the batch closed, once per closing.
    pub closed: Seq<Entity>,
    /// The number the next spawned document takes.
    pub next_entity: u64,
}

pub open spec fn docs_view(docs: Seq<(Entity, EditorDocument)>) -> Seq<(Entity, DocumentView)> {
    docs.map_values(|d: (Entity, EditorDocument)| (d.0, d.1@))
}

pub open spec fn is_first_of_type(docs: Seq<(Entity, DocumentView)>, t: Seq<char>, i: int) -> bool {
    &&& 0 <= i < docs.len()
    &&& docs[i].1.asset_type == t
    &&& forall|j: int| 0 <= j < i ==> docs[j].1.asset_type != t
}

/// The first document of asset type `t`.
pub open spec fn first_of_type(docs: Seq<(Entity, DocumentView)>, t: Seq<char>) -> Option<int> {
    if exists|i: int| is_first_of_type(docs, t, i) {
        Some(choose|i: int| is_first_of_type(docs, t, i))
    } else {
        None
    }
}

pub open spec fn is_first_entity(docs: Seq<(Entity, DocumentView)>, e: Entity, i: int) -> bool {
    &&& 0 <= i < docs.len()
    &&& docs[i].0 == e
    &&& forall|j: int| 0 <= j < i ==> docs[j].0 != e
}

/// Where document `e` stands among the documents.
pub open spec fn position_of(docs: Seq<(Entity, DocumentView)>, e: Entity) -> Option<int> {
    if exists|i: int| is_first_entity(docs, e, i) {
        Some(choose|i: int| is_first_entity(docs, e, i))
    } else {
        None
    }
}

/// `i` is the last of the documents opened before `bound` with the latest order.
pub open spec fn is_left_neighbor(docs: Seq<(Entity, DocumentView)>, bound: u64, i: int) -> bool {
    &&& 0 <= i < docs.len()
    &&& docs[i].1.order < bound
    &&& forall|j: int|
        0 <= j < docs.len() && #[trigger] docs[j].1.order < bound ==> docs[j].1.order <= docs[i].1.order
            && (j > i ==> docs[j].1.order < docs[i].1.order)
}

/// `i` is the first of the documents with the earliest order.
pub open spec fn is_first_min(docs: Seq<(Entity, DocumentView)>, i: int) -> bool {
    &&& 0 <= i < docs.len()
    &&& forall|j: int|
        0 <= j < docs.len() ==> docs[i].1.order <= #[trigger] docs[j].1.order && (j < i
            ==> docs[j].1.order > docs[i].1.order)
}

/// The tab that becomes active when the active tab, opened at `order`, is
/// closed: the nearest one opened before it, else the first one opened.
pub open spec fn neighbor_after_close(docs: Seq<(Entity, DocumentView)>, order: u64) -> Option<Entity> {
    if exists|i: int| is_left_neighbor(docs, order, i) {
        Some(docs[choose|i: int| is_left_neighbor(docs, order, i)].0)
    } else if exists|i: int| is_first_min(docs, i) {
        Some(docs[choose|i: int| is_first_min(docs, i)].0)
    } else {
        None
    }
}

/// The latest order among the documents, or 0 when there are none.
pub open spec fn max_order(docs: Seq<(Entity, DocumentView)>) -> u64
    decreases docs.len(),
{
    if docs.len() == 0 {
        0
    } else {
        let m = max_order(docs.drop_last());
        if docs.last().1.order > m {
            docs.last().1.order
        } else {
            m
        }
    }
}

/// The status a document shows while `address` loads.
pub open spec fn opening_status(address: Seq<char>) -> Seq<char> {
    "Opening "@ + address + "…"@
}

/// What one command does to the staged documents.
pub open spec fn step(s: Staging, c: CommandView, kinds: Seq<Seq<char>>, project_generation: u64) -> Staging {
    match c {
        CommandView::Open { asset, project_generation: requested } => {
            if project_generation != requested || !kinds.contains(asset.kind) {
                s
            } else {
                match first_of_type(s.docs, asset.kind) {
                    Some(i) => {
                        let (e, d) = s.docs[i];
                        if d.pending matches Some(p) && p.id == asset.id {
                            Staging { active: Some(e), ..s }
                        } else {
                            let reopened = d.current matches Some(c) && c.id == asset.id;
                            let nd = DocumentView {
                                request_generation: (d.request_generation + 1) as u64,
                                project_generation: requested,
                                pending: if reopened { None } else { Some(asset) },
                                status: if reopened { Seq::empty() } else { opening_status(asset.address) },
                                ..d
                            };
                            Staging {
                                docs: s.docs.update(i, (e, nd)),
                                changed: s.changed.push(e),
                                active: Some(e),
                                ..s
                            }
                        }
                    },
                    None => {
                        let e = Entity(s.next_entity);
                        let nd = DocumentView {
                            asset_type: asset.kind,
                            title: asset.display_name,
                            status: opening_status(asset.address),
                            current: None,
                            pending: Some(asset),
                            project_generation: requested,
                            request_generation: 1,
                            order: (max_order(s.docs) + 1) as u64,
                        };
                        Staging {
                            docs: s.docs.push((e, nd)),
                            created: s.created.push(e),
                            changed: s.changed.push(e),
                            active: Some(e),
                            next_entity: (s.next_entity + 1) as u64,
                            ..s
                        }
                    },
                }
            }
        },
        CommandView::Activate(e) => {
            if position_of(s.docs, e) is Some {
                Staging { active: Some(e), ..s }
            } else {
                s
            }
        },
        CommandView::Close(e) => {
            match position_of(s.docs, e) {
                Some(p) => {
                    let rest = s.docs.remove(p);
                    Staging {
                        docs: rest,
                        closed: s.closed.push(e),
                        active: if s.active == Some(e) {
                            neighbor_after_close(rest, s.docs[p].1.order)
                        } else {
                            s.active
                        },
                        ..s
                    }
                },
                None => s,
            }
        },
        CommandView::CloseAll => Staging {
            docs: Seq::empty(),
            closed: s.closed + s.docs.map_values(|d: (Entity, DocumentView)| d.0),
            active: None,
            ..s
        },
    }
}

/// What a whole batch of commands does, one after another.
pub open spec fn run(s: Staging, cmds: Seq<CommandView>, kinds: Seq<Seq<char>>, project_generation: u64) -> Staging
    decreases cmds.len(),
{
    if cmds.len() == 0 {
        s
    } else {
        run(step(s, cmds[0], kinds, project_generation), cmds.drop_first(), kinds, project_generation)
    }
}


/// No two documents share an asset type.
pub open spec fn one_document_per_type(docs: Seq<(Entity, DocumentView)>) -> bool {
    forall|i: int, j: int|
        0 <= i < j < docs.len() ==> #[trigger] docs[i].1.asset_type != #[trigger] docs[j].1.asset_type
}

/// The active tab, if any, is one of the open documents.
pub open spec fn active_is_open(s: Staging) -> bool {
    s.active matches Some(e) ==> exists|i: int| 0 <= i < s.docs.len() && s.docs[i].0 == e
}

proof fn lemma_first_entity_exists(docs: Seq<(Entity, DocumentView)>, e: Entity, k: int)
    requires
        0 <= k < docs.len(),
        docs[k].0 == e,
    ensures
        exists|i: int| is_first_entity(docs, e, i),
    decreases k,
{
    if exists|j: int| 0 <= j < k && docs[j].0 == e {
        let j = choose|j: int| 0 <= j < k && docs[j].0 == e;
        lemma_first_entity_exists(docs, e, j);
    } else {
        assert(is_first_entity(docs, e, k));
    }
}

proof fn lemma_first_min_exists(docs: Seq<(Entity, DocumentView)>)
    requires
        docs.len() > 0,
    ensures
        exists|i: int| is_first_min(docs, i),
    decreases docs.len(),
{
    if docs.len() == 1 {
        assert(is_first_min(docs, 0));
    } else {
        let rest = docs.drop_last();
        lemma_first_min_exists(rest);
        let i = choose|i: int| is_first_min(rest, i);
        assert(rest[i] == docs[i]);
        if docs.last().1.order < docs[i].1.order {
            assert(is_first_min(docs, docs.len() - 1)) by {
                assert forall|j: int| 0 <= j < docs.len() implies docs[docs.len() - 1].1.order <= #[trigger] docs[j].1.order
                    && (j < docs.len() - 1 ==> docs[j].1.order > docs[docs.len() - 1].1.order) by {
                    if j < docs.len() - 1 {
                        assert(rest[j] == docs[j]);
                    }
                }
            }
        } else {
            assert(is_first_min(docs, i)) by {
                assert forall|j: int| 0 <= j < docs.len() implies docs[i].1.order <= #[trigger] docs[j].1.order
                    && (j < i ==> docs[j].1.order > docs[i].1.order) by {
                    if j < docs.len() - 1 {
                        assert(rest[j] == docs[j]);
                    }
                }
            }
        }
    }
}

proof fn lemma_left_neighbor_exists(docs: Seq<(Entity, DocumentView)>, bound: u64)
    requires
        exists|k: int| 0 <= k < docs.len() && docs[k].1.order < bound,
    ensures
        exists|i: int| is_left_neighbor(docs, bound, i),
    decreases docs.len(),
{
    let n = docs.len() - 1;
    let rest = docs.drop_last();
    if exists|k: int| 0 <= k < rest.len() && rest[k].1.order < bound {
        lemma_left_neighbor_exists(rest, bound);
        let i = choose|i: int| is_left_neighbor(rest, bound, i);
        assert(rest[i] == docs[i]);
        if docs[n].1.order < bound && docs[n].1.order >= docs[i].1.order {
            assert(is_left_neighbor(docs, bound, n)) by {
                assert forall|j: int| 0 <= j < docs.len() && #[trigger] docs[j].1.order < bound implies docs[j].1.order
                    <= docs[n].1.order && (j > n ==> docs[j].1.order < docs[n].1.order) by {
                    if j < n {
                        assert(rest[j] == docs[j]);
                        assert(rest[j].1.order < bound);
                    }
                }
            }
        } else {
            assert(is_left_neighbor(docs, bound, i)) by {
                assert forall|j: int| 0 <= j < docs.len() && #[trigger] docs[j].1.order < bound implies docs[j].1.order
                    <= docs[i].1.order && (j > i ==> docs[j].1.order < docs[i].1.order) by {
                    if j < n {
                        assert(rest[j] == docs[j]);
                        assert(rest[j].1.order < bound);
                    }
                }
            }
        }
    } else {
        let k = choose|k: int| 0 <= k < docs.len() && docs[k].1.order < bound;
        if k < n {
            assert(rest[k] == docs[k]);
        }
        assert(is_left_neighbor(docs, bound, n)) by {
            assert forall|j: int| 0 <= j < docs.len() && #[trigger] docs[j].1.order < bound implies docs[j].1.order
                <= docs[n].1.order && (j > n ==> docs[j].1.order < docs[n].1.order) by {
                if j < n {
                    assert(rest[j] == docs[j]);
                }
            }
        }
    }
}

/// Closing the active tab, opened at order `o`, takes it out of the
/// documents and makes active the nearest tab opened before it: one with
/// the greatest order below `o`, so no remaining tab was opened between
/// the new active one and the closed one. When no remaining tab was opened
/// before it, the earliest opened remaining tab becomes active; when none
/// remains, no tab is active.
pub proof fn law_closing_the_active_tab(
    s: Staging,
    p: int,
    kinds: Seq<Seq<char>>,
    project_generation: u64,
)
    requires
        0 <= p < s.docs.len(),
        forall|j: int| 0 <= j < p ==> s.docs[j].0 != s.docs[p].0,
        s.active == Some(s.docs[p].0),
    ensures
        ({
            let o = s.docs[p].1.order;
            let rest = s.docs.remove(p);
            let t = step(s, CommandView::Close(s.docs[p].0), kinds, project_generation);
            &&& t.docs == rest
            &&& (exists|k: int| 0 <= k < rest.len() && rest[k].1.order < o) ==> exists|i: int|
                0 <= i < rest.len() && t.active == Some(rest[i].0) && rest[i].1.order < o && forall|j: int|
                    0 <= j < rest.len() && #[trigger] rest[j].1.order < o ==> rest[j].1.order <= rest[i].1.order
            &&& (forall|k: int| 0 <= k < rest.len() ==> rest[k].1.order >= o) && rest.len() > 0 ==> exists|i: int|
                0 <= i < rest.len() && t.active == Some(rest[i].0) && forall|j: int|
                    0 <= j < rest.len() ==> rest[i].1.order <= #[trigger] rest[j].1.order
            &&& rest.len() == 0 ==> t.active is None
        }),
{
    let e = s.docs[p].0;
    let o = s.docs[p].1.order;
    let rest = s.docs.remove(p);
    assert(is_first_entity(s.docs, e, p));
    let c = choose|i: int| is_first_entity(s.docs, e, i);
    if c < p {
        assert(s.docs[c].0 != e);
    } else if c > p {
        assert(s.docs[p].0 != e);
    }
    assert(position_of(s.docs, e) == Some(p));
    let t = step(s, CommandView::Close(e), kinds, project_generation);
    assert(t.active == neighbor_after_close(rest, o));
    if exists|k: int| 0 <= k < rest.len() && rest[k].1.order < o {
        lemma_left_neighbor_exists(rest, o);
        let i = choose|i: int| is_left_neighbor(rest, o, i);
        assert(t.active == Some(rest[i].0));
    } else if rest.len() > 0 {
        lemma_first_min_exists(rest);
        let i = choose|i: int| is_first_min(rest, i);
        assert(!(exists|i: int| is_left_neighbor(rest, o, i)));
        assert(t.active == Some(rest[i].0));
    } else {
        assert(!(exists|i: int| is_left_neighbor(rest, o, i)));
        assert(!(exists|i: int| is_first_min(rest, i)));
    }
}

/// Closing a tab that is not the active one takes just that document out
/// (the first that shows its entity), records it as closed, and leaves the
/// active tab as it was.
pub proof fn law_closing_another_tab(s: Staging, p: int, kinds: Seq<Seq<char>>, project_generation: u64)
    requires
        0 <= p < s.docs.len(),
        forall|j: int| 0 <= j < p ==> s.docs[j].0 != s.docs[p].0,
        s.active != Some(s.docs[p].0),
    ensures
        ({
            let t = step(s, CommandView::Close(s.docs[p].0), kinds, project_generation);
            &&& t.docs == s.docs.remove(p)
            &&& t.active == s.active
            &&& t.closed == s.closed.push(s.docs[p].0)
            &&& t.created == s.created
            &&& t.changed == s.changed
        }),
{
    let e = s.docs[p].0;
    assert(is_first_entity(s.docs, e, p));
    let c = choose|i: int| is_first_entity(s.docs, e, i);
    if c < p {
        assert(s.docs[c].0 != e);
    } else if c > p {
        assert(s.docs[p].0 != e);
    }
    assert(position_of(s.docs, e) == Some(p));
}

proof fn lemma_step_keeps_invariants(s: Staging, c: CommandView, kinds: Seq<Seq<char>>, project_generation: u64)
    requires
        one_document_per_type(s.docs),
    ensures
        one_document_per_type(step(s, c, kinds, project_generation).docs),
        active_is_open(s) ==> active_is_open(step(s, c, kinds, project_generation)),
{
    let t = step(s, c, kinds, project_generation);
    match c {
        CommandView::Open { asset, project_generation: requested } => {
            if project_generation != requested || !kinds.contains(asset.kind) {
            } else {
                match first_of_type(s.docs, asset.kind) {
                    Some(i) => {
                        assert(is_first_of_type(s.docs, asset.kind, i));
                        assert(t.docs[i].0 == s.docs[i].0);
                        assert forall|a: int, b: int| 0 <= a < b < t.docs.len() implies #[trigger] t.docs[a].1.asset_type
                            != #[trigger] t.docs[b].1.asset_type by {
                            assert(s.docs[a].1.asset_type != s.docs[b].1.asset_type);
                        }
                    },
                    None => {
                        assert forall|a: int, b: int| 0 <= a < b < t.docs.len() implies #[trigger] t.docs[a].1.asset_type
                            != #[trigger] t.docs[b].1.asset_type by {
                            if b == s.docs.len() {
                                if t.docs[a].1.asset_type == asset.kind {
                                    lemma_first_type_exists(s.docs, asset.kind, a);
                                }
                            } else {
                                assert(s.docs[a].1.asset_type != s.docs[b].1.asset_type);
                            }
                        }
                        assert(t.docs[s.docs.len() as int].0 == Entity(s.next_entity));
                    },
                }
            }
        },
        CommandView::Activate(e) => {
            if position_of(s.docs, e) is Some {
                let i = choose|i: int| is_first_entity(s.docs, e, i);
                assert(s.docs[i].0 == e);
            }
        },
        CommandView::Close(e) => {
            match position_of(s.docs, e) {
                Some(p) => {
                    let rest = s.docs.remove(p);
                    assert(is_first_entity(s.docs, e, p));
                    assert forall|a: int, b: int| 0 <= a < b < rest.len() implies #[trigger] rest[a].1.asset_type
                        != #[trigger] rest[b].1.asset_type by {
                        let a2 = if a < p { a } else { a + 1 };
                        let b2 = if b < p { b } else { b + 1 };
                        assert(rest[a] == s.docs[a2]);
                        assert(rest[b] == s.docs[b2]);
                        assert(s.docs[a2].1.asset_type != s.docs[b2].1.asset_type);
                    }
                    if s.active == Some(e) {
                        let order = s.docs[p].1.order;
                        if exists|i: int| is_left_neighbor(rest, order, i) {
                            let i = choose|i: int| is_left_neighbor(rest, order, i);
                            assert(rest[i].0 == t.active.unwrap());
                        } else if exists|i: int| is_first_min(rest, i) {
                            let i = choose|i: int| is_first_min(rest, i);
                            assert(rest[i].0 == t.active.unwrap());
                        }
                    } else if s.active is Some && active_is_open(s) {
                        let a = s.active.unwrap();
                        let k = choose|k: int| 0 <= k < s.docs.len() && s.docs[k].0 == a;
                        assert(k != p);
                        let k2 = if k < p { k } else { k - 1 };
                        assert(rest[k2] == s.docs[k]);
                    }
                },
                None => {},
            }
        },
        CommandView::CloseAll => {},
    }
}

proof fn lemma_first_type_exists(docs: Seq<(Entity, DocumentView)>, t: Seq<char>, k: int)
    requires
        0 <= k < docs.len(),
        docs[k].1.asset_type == t,
    ensures
        exists|i: int| is_first_of_type(docs, t, i),
    decreases k,
{
    if exists|j: int| 0 <= j < k && docs[j].1.asset_type == t {
        let j = choose|j: int| 0 <= j < k && docs[j].1.asset_type == t;
        lemma_first_type_exists(docs, t, j);
    } else {
        assert(is_first_of_type(docs, t, k));
    }
}

/// However many commands a batch holds, each asset type keeps at most one
/// document, whichever tab is active; and when the active tab is one of the
/// open documents, it stays one.
pub proof fn law_one_document_per_type(
    s: Staging,
    cmds: Seq<CommandView>,
    kinds: Seq<Seq<char>>,
    project_generation: u64,
)
    requires
        one_document_per_type(s.docs),
    ensures
        one_document_per_type(run(s, cmds, kinds, project_generation).docs),
        active_is_open(s) ==> active_is_open(run(s, cmds, kinds, project_generation)),
    decreases cmds.len(),
{
    if cmds.len() > 0 {
        lemma_step_keeps_invariants(s, cmds[0], kinds, project_generation);
        law_one_document_per_type(step(s, cmds[0], kinds, project_generation), cmds.drop_first(), kinds, project_generation);
    }
}

/// Whether the document is loading the asset `id`.
pub open spec fn loading(d: DocumentView, id: AssetId) -> bool {
    d.pending matches Some(p) && p.id == id
}

/// Whether the document shows the asset `id`.
pub open spec fn showing(d: DocumentView, id: AssetId) -> bool {
    d.current matches Some(c) && c.id == id
}

/// Opening an asset of a type that has a document goes to that document:
/// no document is created, every document keeps its entity, and that one
/// becomes the active tab. Asking again for the asset it is loading only activates it, so the load
/// is not restarted; asking for the asset it already shows drops the
/// pending request, clears the status and moves the request generation, so
/// a load still running for the old request is no longer current.
pub proof fn law_reopening_an_asset(
    s: Staging,
    i: int,
    asset: AssetEntryView,
    kinds: Seq<Seq<char>>,
    project_generation: u64,
)
    requires
        one_document_per_type(s.docs),
        0 <= i < s.docs.len(),
        s.docs[i].1.asset_type == asset.kind,
        kinds.contains(asset.kind),
    ensures
        ({
            let (e, d) = s.docs[i];
            let t = step(s, CommandView::Open { asset, project_generation }, kinds, project_generation);
            &&& t.docs.len() == s.docs.len()
            &&& forall|j: int| 0 <= j < s.docs.len() ==> (#[trigger] t.docs[j]).0 == s.docs[j].0
            &&& t.active == Some(e)
            &&& t.created == s.created
            &&& t.next_entity == s.next_entity
            &&& loading(d, asset.id) ==> t == (Staging { active: Some(e), ..s })
            &&& !loading(d, asset.id) && showing(d, asset.id) ==> {
                &&& t.docs == s.docs.update(
                    i,
                    (
                        e,
                        DocumentView {
                            request_generation: (d.request_generation + 1) as u64,
                            project_generation,
                            pending: None,
                            status: Seq::empty(),
                            ..d
                        },
                    ),
                )
                &&& t.active == Some(e)
                &&& !request_is_current(t.docs[i].1, d.request_generation, project_generation)
            }
        }),
{
    assert forall|j: int| 0 <= j < i implies s.docs[j].1.asset_type != asset.kind by {
        assert(s.docs[j].1.asset_type != s.docs[i].1.asset_type);
    }
    assert(is_first_of_type(s.docs, asset.kind, i));
    let c = choose|c: int| is_first_of_type(s.docs, asset.kind, c);
    if c < i {
        assert(s.docs[c].1.asset_type != s.docs[i].1.asset_type);
    } else if c > i {
        assert(s.docs[i].1.asset_type != s.docs[c].1.asset_type);
    }
    assert(first_of_type(s.docs, asset.kind) == Some(i));
}

/// A batch that only opens and activates keeps every open document where
/// it stands, under the same entity and asset type; with one document per
/// type before it, opening an asset of a type that has a document goes to
/// that document, and a new one is made only for a type that had none.
pub proof fn law_opening_keeps_documents(
    s: Staging,
    cmds: Seq<CommandView>,
    kinds: Seq<Seq<char>>,
    project_generation: u64,
)
    requires
        forall|k: int| 0 <= k < cmds.len() ==> (#[trigger] cmds[k] is Open) || cmds[k] is Activate,
    ensures
        ({
            let t = run(s, cmds, kinds, project_generation);
            &&& s.docs.len() <= t.docs.len()
            &&& forall|j: int| 0 <= j < s.docs.len() ==> (#[trigger] t.docs[j]).0 == s.docs[j].0 && t.docs[j].1.asset_type
                == s.docs[j].1.asset_type
            &&& one_document_per_type(s.docs) ==> forall|j: int|
                s.docs.len() <= j < t.docs.len() ==> forall|i: int|
                    0 <= i < s.docs.len() ==> #[trigger] t.docs[j].1.asset_type != #[trigger] s.docs[i].1.asset_type
        }),
    decreases cmds.len(),
{
    let t = run(s, cmds, kinds, project_generation);
    if cmds.len() > 0 {
        assert(cmds[0] is Open || cmds[0] is Activate);
        let u = step(s, cmds[0], kinds, project_generation);
        assert(s.docs.len() <= u.docs.len());
        assert forall|j: int| 0 <= j < s.docs.len() implies (#[trigger] u.docs[j]).0 == s.docs[j].0 && u.docs[j].1.asset_type
            == s.docs[j].1.asset_type by {}
        assert forall|k: int| 0 <= k < cmds.drop_first().len() implies (#[trigger] cmds.drop_first()[k] is Open)
            || cmds.drop_first()[k] is Activate by {
            assert(cmds.drop_first()[k] == cmds[k + 1]);
        }
        law_opening_keeps_documents(u, cmds.drop_first(), kinds, project_generation);
        if one_document_per_type(s.docs) {
            law_one_document_per_type(s, cmds, kinds, project_generation);
            assert forall|j: int, i: int| s.docs.len() <= j < t.docs.len() && 0 <= i < s.docs.len() implies #[trigger] t.docs[j].1.asset_type
                != #[trigger] s.docs[i].1.asset_type by {
                assert(t.docs[i].1.asset_type == s.docs[i].1.asset_type);
                assert(i < j);
            }
        }
    }
}

/// The documents after a batch, and what the world must do to catch up:
/// spawn `created` (building their editors), write back `changed`, and
/// despawn `closed` together with everything they own.
pub struct DocumentBatch {
    pub documents: Vec<(Entity, EditorDocument)>,
    pub active: Option<Entity>,
    pub created: Vec<Entity>,
    pub changed: Vec<Entity>,
    pub closed: Vec<Entity>,
    pub next_entity: u64,
}

/// Reads a batch result as a [`Staging`].
pub open spec fn batch_view(b: DocumentBatch) -> Staging {
    Staging {
        docs: docs_view(b.documents@),
        active: b.active,
        created: b.created@,
        changed: b.changed@,
        closed: b.closed@,
        next_entity: b.next_entity,
    }
}

/// Commands may each bump a document's generation or open one more tab;
/// the counters must have room for that.
pub open spec fn batch_fits(docs: Seq<(Entity, DocumentView)>, n: int, next_entity: u64) -> bool {
    &&& next_entity + n <= u64::MAX
    &&& forall|i: int| 0 <= i < docs.len() ==> #[trigger] docs[i].1.request_generation + n <= u64::MAX
    &&& forall|i: int| 0 <= i < docs.len() ==> #[trigger] docs[i].1.order + n <= u64::MAX
}

proof fn lemma_max_order(docs: Seq<(Entity, DocumentView)>)
    ensures
        max_order(docs) == 0 || exists|i: int| 0 <= i < docs.len() && docs[i].1.order == max_order(docs),
        forall|i: int| 0 <= i < docs.len() ==> docs[i].1.order <= max_order(docs),
    decreases docs.len(),
{
    if docs.len() > 0 {
        lemma_max_order(docs.drop_last());
        let m = max_order(docs.drop_last());
        assert forall|i: int| 0 <= i < docs.len() implies docs[i].1.order <= max_order(docs) by {
            if i < docs.len() - 1 {
                assert(docs.drop_last()[i] == docs[i]);
            }
        }
        if max_order(docs) != 0 {
            if docs.last().1.order > m {
                assert(docs[docs.len() - 1].1.order == max_order(docs));
            } else {
                let j = choose|j: int| 0 <= j < docs.drop_last().len() && docs.drop_last()[j].1.order == m;
                assert(docs[j] == docs.drop_last()[j]);
            }
        }
    }
}

fn find_type(docs: &Vec<(Entity, EditorDocument)>, t: &String) -> (found: Option<usize>)
    ensures
        match found {
            Some(i) => first_of_type(docs_view(docs@), t@) == Some(i as int),
            None => first_of_type(docs_view(docs@), t@) is None,
        },
{
    let ghost v = docs_view(docs@);
    let mut i: usize = 0;
    while i < docs.len()
        invariant
            0 <= i <= docs@.len(),
            v == docs_view(docs@),
            forall|j: int| 0 <= j < i ==> v[j].1.asset_type != t@,
        decreases docs@.len() - i,
    {
        if docs[i].1.asset_type == *t {
            assert(is_first_of_type(v, t@, i as int));
            assert forall|k: int| is_first_of_type(v, t@, k) implies k == i by {
                if k < i {
                } else if k > i {
                    assert(v[i as int].1.asset_type != t@);
                }
            }
            return Some(i);
        }
        i = i + 1;
    }
    assert forall|k: int| !is_first_of_type(v, t@, k) by {
        if 0 <= k < v.len() {
            assert(v[k].1.asset_type != t@);
        }
    }
    None
}

fn find_entity(docs: &Vec<(Entity, EditorDocument)>, e: Entity) -> (found: Option<usize>)
    ensures
        match found {
            Some(i) => position_of(docs_view(docs@), e) == Some(i as int),
            None => position_of(docs_view(docs@), e) is None,
        },
{
    let ghost v = docs_view(docs@);
    let mut i: usize = 0;
    while i < docs.len()
        invariant
            0 <= i <= docs@.len(),
            v == docs_view(docs@),
            forall|j: int| 0 <= j < i ==> v[j].0 != e,
        decreases docs@.len() - i,
    {
        if docs[i].0 == e {
            assert(is_first_entity(v, e, i as int));
            assert forall|k: int| is_first_entity(v, e, k) implies k == i by {
                if k > i {
                    assert(v[i as int].0 != e);
                }
            }
            return Some(i);
        }
        i = i + 1;
    }
    assert forall|k: int| !is_first_entity(v, e, k) by {
        if 0 <= k < v.len() {
            assert(v[k].0 != e);
        }
    }
    None
}

fn latest_order(docs: &Vec<(Entity, EditorDocument)>) -> (m: u64)
    ensures
        m == max_order(docs_view(docs@)),
{
    let ghost v = docs_view(docs@);
    let mut m: u64 = 0;
    let mut i: usize = 0;
    while i < docs.len()
        invariant
            0 <= i <= docs@.len(),
            v == docs_view(docs@),
            m == max_order(v.take(i as int)),
        decreases docs@.len() - i,
    {
        assert(v.take(i + 1).drop_last() =~= v.take(i as int));
        if docs[i].1.order > m {
            m = docs[i].1.order;
        }
        i = i + 1;
    }
    assert(v.take(docs@.len() as int) =~= v);
    m
}

fn neighbor(docs: &Vec<(Entity, EditorDocument)>, bound: u64) -> (chosen: Option<Entity>)
    ensures
        chosen == neighbor_after_close(docs_view(docs@), bound),
{
    let ghost v = docs_view(docs@);
    let mut best: Option<usize> = None;
    let mut i: usize = 0;
    while i < docs.len()
        invariant
            0 <= i <= docs@.len(),
            v == docs_view(docs@),
            best is None ==> forall|j: int| 0 <= j < i ==> v[j].1.order >= bound,
            best matches Some(b) ==> {
                &&& b < i
                &&& v[b as int].1.order < bound
                &&& forall|j: int|
                    0 <= j < i && #[trigger] v[j].1.order < bound ==> v[j].1.order <= v[b as int].1.order
                        && (j > b ==> v[j].1.order < v[b as int].1.order)
            },
        decreases docs@.len() - i,
    {
        let order = docs[i].1.order;
        if order < bound {
            match best {
                None => {
                    best = Some(i);
                },
                Some(b) => {
                    if order >= docs[b].1.order {
                        best = Some(i);
                    }
                },
            }
        }
        i = i + 1;
    }
    match best {
        Some(b) => {
            assert(is_left_neighbor(v, bound, b as int));
            assert forall|k: int| is_left_neighbor(v, bound, k) implies k == b by {
                if k < b {
                    assert(v[b as int].1.order < bound);
                } else if k > b {
                    assert(v[k].1.order < bound);
                }
            }
            return Some(docs[b].0);
        },
        None => {},
    }
    assert forall|k: int| !is_left_neighbor(v, bound, k) by {
        if 0 <= k < v.len() {
            assert(v[k].1.order >= bound);
        }
    }
    if docs.len() == 0 {
        assert forall|k: int| !is_first_min(v, k) by {}
        return None;
    }
    let mut first: usize = 0;
    let mut i: usize = 1;
    while i < docs.len()
        invariant
            1 <= i <= docs@.len(),
            first < i,
            v == docs_view(docs@),
            forall|j: int|
                0 <= j < i ==> v[first as int].1.order <= #[trigger] v[j].1.order && (j < first
                    ==> v[j].1.order > v[first as int].1.order),
        decreases docs@.len() - i,
    {
        if docs[i].1.order < docs[first].1.order {
            first = i;
        }
        i = i + 1;
    }
    assert(is_first_min(v, first as int));
    assert forall|k: int| is_first_min(v, k) implies k == first by {
        if k < first {
            assert(v[k].1.order > v[first as int].1.order);
            assert(v[k].1.order <= v[first as int].1.order);
        } else if k > first {
            assert(v[first as int].1.order <= v[k].1.order);
            assert(v[first as int].1.order > v[k].1.order);
        }
    }
    Some(docs[first].0)
}

fn opening(address: &String) -> (status: String)
    ensures
        status@ == opening_status(address@),
{
    let mut status = String::from_str("Opening ");
    status.append(address.as_str());
    status.append("…");
    status
}

/// Applies a batch of tab commands, in order, to the staged documents.
///
/// An `Open` for a stale project generation, or for an asset type with no
/// editor, is dropped. Opening an asset whose type already has a document
/// reuses it: the request generation moves on and the asset becomes pending,
/// unless it is already pending (nothing changes but activation) or already
/// current (the pending request is dropped). Closing the active tab
/// activates the nearest tab opened before it, else the first one opened.
/// New documents take the numbers from `next_entity` up.
pub fn process_editor_commands(
    commands: Vec<AssetEditorCommand>,
    registry: &AssetEditorRegistry,
    project_generation: u64,
    active: Option<Entity>,
    documents: Vec<(Entity, EditorDocument)>,
    next_entity: u64,
) -> (batch: DocumentBatch)
    requires
        batch_fits(docs_view(documents@), commands@.len() as int, next_entity),
    ensures
        batch_view(batch) == run(
            Staging {
                docs: docs_view(documents@),
                active: active,
                created: Seq::empty(),
                changed: Seq::empty(),
                closed: Seq::empty(),
                next_entity: next_entity,
            },
            commands@.map_values(|c: AssetEditorCommand| c@),
            registry.kinds_view(),
            project_generation,
        ),
{
    let ghost kinds = registry.kinds_view();
    let ghost all = commands@.map_values(|c: AssetEditorCommand| c@);
    let ghost init = Staging {
        docs: docs_view(documents@),
        active: active,
        created: Seq::empty(),
        changed: Seq::empty(),
        closed: Seq::empty(),
        next_entity: next_entity,
    };
    let mut commands = commands;
    let mut staged = documents;
    let mut next_active = active;
    let mut created: Vec<Entity> = Vec::new();
    let mut changed: Vec<Entity> = Vec::new();
    let mut closed: Vec<Entity> = Vec::new();
    let mut next = next_entity;
    let ghost mut done: int = 0;
    while commands.len() > 0
        invariant
            0 <= done <= all.len(),
            commands@.map_values(|c: AssetEditorCommand| c@) == all.skip(done),
            batch_fits(docs_view(staged@), all.len() - done, next),
            run(
                Staging {
                    docs: docs_view(staged@),
                    active: next_active,
                    created: created@,
                    changed: changed@,
                    closed: closed@,
                    next_entity: next,
                },
                all.skip(done),
                kinds,
                project_generation,
            ) == run(init, all, kinds, project_generation),
            kinds == registry.kinds_view(),
        decreases commands@.len(),
    {
        let ghost rem = all.len() - done;
        let ghost s = Staging {
            docs: docs_view(staged@),
            active: next_active,
            created: created@,
            changed: changed@,
            closed: closed@,
            next_entity: next,
        };
        let ghost before = docs_view(staged@);
        let command = commands.remove(0);
        let ghost c = command@;
        assert(all.skip(done)[0] == c);
        assert(all.skip(done).drop_first() =~= all.skip(done + 1));
        assert(commands@.map_values(|c: AssetEditorCommand| c@) =~= all.skip(done + 1));
        match command {
            AssetEditorCommand::Open { asset, project_generation: requested } => {
                if project_generation == requested {
                    if let Some(asset_type) = registry.editor_kind(&asset.kind) {
                        match find_type(&staged, &asset_type) {
                            Some(i) => {
                                let (entity, mut doc) = staged.remove(i);
                                proof {
                                    assert(before[i as int] == (entity, doc@));
                                }
                                let already_pending = match &doc.pending {
                                    Some(p) => p.id == asset.id,
                                    None => false,
                                };
                                if !already_pending {
                                    assert(before[i as int].1.request_generation + rem <= u64::MAX);
                                    doc.request_generation = doc.request_generation + 1;
                                    doc.project_generation = requested;
                                    let reopened = match &doc.current {
                                        Some(cur) => cur.id == asset.id,
                                        None => false,
                                    };
                                    if reopened {
                                        doc.pending = None;
                                        doc.status = String::new();
                                    } else {
                                        doc.status = opening(&asset.address);
                                        doc.pending = Some(asset);
                                    }
                                    changed.push(entity);
                                }
                                staged.insert(i, (entity, doc));
                                next_active = Some(entity);
                                proof {
                                    assert(docs_view(staged@) =~= step(s, c, kinds, project_generation).docs);
                                }
                            },
                            None => {
                                let order = latest_order(&staged);
                                proof {
                                    lemma_max_order(before);
                                    if order != 0 {
                                        let j = choose|j: int| 0 <= j < before.len() && before[j].1.order == order;
                                        assert(before[j].1.order + rem <= u64::MAX);
                                    }
                                }
                                let entity = Entity(next);
                                let title = asset.display_name.clone();
                                let status = opening(&asset.address);
                                let doc = EditorDocument {
                                    asset_type,
                                    title,
                                    status,
                                    current: None,
                                    pending: Some(asset),
                                    project_generation: requested,
                                    request_generation: 1,
                                    order: order + 1,
                                };
                                staged.push((entity, doc));
                                created.push(entity);
                                changed.push(entity);
                                next_active = Some(entity);
                                next = next + 1;
                                proof {
                                    assert(docs_view(staged@) =~= step(s, c, kinds, project_generation).docs);
                                }
                            },
                        }
                    }
                }
            },
            AssetEditorCommand::Activate(entity) => {
                if find_entity(&staged, entity).is_some() {
                    next_active = Some(entity);
                }
            },
            AssetEditorCommand::Close(entity) => {
                match find_entity(&staged, entity) {
                    Some(index) => {
                        let (_, doc) = staged.remove(index);
                        proof {
                            assert(docs_view(staged@) =~= before.remove(index as int));
                        }
                        closed.push(entity);
                        if next_active == Some(entity) {
                            next_active = neighbor(&staged, doc.order);
                        }
                    },
                    None => {},
                }
            },
            AssetEditorCommand::CloseAll => {
                let ghost closed_before = closed@;
                while staged.len() > 0
                    invariant
                        closed_before + before.map_values(|d: (Entity, DocumentView)| d.0) == closed@
                            + docs_view(staged@).map_values(|d: (Entity, DocumentView)| d.0),
                    decreases staged@.len(),
                {
                    let ghost v = docs_view(staged@);
                    let (entity, _) = staged.remove(0);
                    assert(v.map_values(|d: (Entity, DocumentView)| d.0) =~= seq![entity]
                        + docs_view(staged@).map_values(|d: (Entity, DocumentView)| d.0));
                    closed.push(entity);
                    assert(closed@ + docs_view(staged@).map_values(|d: (Entity, DocumentView)| d.0)
                        =~= closed@.drop_last() + v.map_values(|d: (Entity, DocumentView)| d.0));
                }
                assert(docs_view(staged@) =~= Seq::<(Entity, DocumentView)>::empty());
                assert(closed@ =~= closed_before + before.map_values(|d: (Entity, DocumentView)| d.0));
                next_active = None;
            },
        }
        proof {
            let t = step(s, c, kinds, project_generation);
            assert(docs_view(staged@) =~= t.docs);
            assert(run(s, all.skip(done), kinds, project_generation) == run(t, all.skip(done + 1), kinds, project_generation));
            done = done + 1;
        }
    }
    assert(all.skip(done) =~= Seq::<CommandView>::empty());
    DocumentBatch {
        documents: staged,
        active: next_active,
        created,
        changed,
        closed,
        next_entity: next,
    }
}

} // verus!
