use vstd::prelude::*;
use vstd::string::StringExecFns;

use crate::entity::AssetId;
use crate::text::{
    decimal, decimal_string, join, contains, contains_text, has_prefix, law_holding_is_splitting, lowercase, same_text,
    starts_with, to_lowercase,
};

verus! {

/// Where an imported asset came from.
#[derive(Debug)]
pub struct ImportProvenance {
    pub source: String,
    pub sub_asset: String,
}

/// One entry of the project catalogue.
#[derive(Debug)]
pub struct AssetEntry {
    pub id: AssetId,
    pub address: String,
    pub kind: String,
    pub display_name: String,
    pub folder: String,
    pub provenance: ImportProvenance,
}

/// What an [`AssetEntry`] says, as text.
pub struct AssetEntryView {
    pub id: AssetId,
    pub address: Seq<char>,
    pub kind: Seq<char>,
    pub display_name: Seq<char>,
    pub folder: Seq<char>,
    pub source: Seq<char>,
    pub sub_asset: Seq<char>,
}

impl View for AssetEntry {
    type V = AssetEntryView;

    open spec fn view(&self) -> AssetEntryView {
        AssetEntryView {
            id: self.id,
            address: self.address@,
            kind: self.kind@,
            display_name: self.display_name@,
            folder: self.folder@,
            source: self.provenance.source@,
            sub_asset: self.provenance.sub_asset@,
        }
    }
}

impl Clone for ImportProvenance {
    fn clone(&self) -> (copy: Self)
        ensures
            copy.source@ == self.source@,
            copy.sub_asset@ == self.sub_asset@,
    {
        ImportProvenance { source: self.source.clone(), sub_asset: self.sub_asset.clone() }
    }
}

impl Clone for AssetEntry {
    fn clone(&self) -> (copy: Self)
        ensures
            copy@ == self@,
    {
        AssetEntry {
            id: self.id,
            address: self.address.clone(),
            kind: self.kind.clone(),
            display_name: self.display_name.clone(),
            folder: self.folder.clone(),
            provenance: self.provenance.clone(),
        }
    }
}

/// The view of an optional catalogue entry.
pub open spec fn entry_option_view(entry: Option<AssetEntry>) -> Option<AssetEntryView> {
    match entry {
        Some(e) => Some(e@),
        None => None,
    }
}

/// Whether an asset sits in `folder` or below it. No folder, or the empty
/// one, takes everything.
pub open spec fn in_folder(asset_folder: Seq<char>, folder: Option<Seq<char>>) -> bool {
    match folder {
        None => true,
        Some(f) => f.len() == 0 || asset_folder == f || (has_prefix(asset_folder, f) && asset_folder.len() > f.len()
            && asset_folder[f.len() as int] == '/'),
    }
}

/// Whether an asset's name, address or kind holds the lowercase `query`.
pub open spec fn matches_query(asset: AssetEntryView, query: Seq<char>) -> bool {
    query.len() == 0 || contains_text(lowercase(asset.display_name), query) || contains_text(
        lowercase(asset.address),
        query,
    ) || contains_text(lowercase(asset.kind), query)
}

/// Whether an asset passes the catalogue's filters.
pub open spec fn asset_matches(asset: AssetEntryView, query: Seq<char>, folder: Option<Seq<char>>, kind: Option<Seq<char>>) -> bool {
    &&& in_folder(asset.folder, folder)
    &&& (kind matches Some(k) ==> asset.kind == k)
    &&& matches_query(asset, query)
}

/// The assets that pass the filters, in catalogue order.
pub open spec fn matching_assets(
    assets: Seq<AssetEntryView>,
    query: Seq<char>,
    folder: Option<Seq<char>>,
    kind: Option<Seq<char>>,
) -> Seq<AssetEntryView>
    decreases assets.len(),
{
    if assets.len() == 0 {
        Seq::empty()
    } else {
        let rest = matching_assets(assets.drop_last(), query, folder, kind);
        if asset_matches(assets.last(), query, folder, kind) {
            rest.push(assets.last())
        } else {
            rest
        }
    }
}

/// The assets of kind `kind`, in catalogue order.
pub open spec fn of_kind(assets: Seq<AssetEntryView>, kind: Seq<char>) -> Seq<AssetEntryView>
    decreases assets.len(),
{
    if assets.len() == 0 {
        Seq::empty()
    } else {
        let rest = of_kind(assets.drop_last(), kind);
        if assets.last().kind == kind {
            rest.push(assets.last())
        } else {
            rest
        }
    }
}

pub open spec fn entries_view(assets: Seq<AssetEntry>) -> Seq<AssetEntryView> {
    assets.map_values(|a: AssetEntry| a@)
}

pub open spec fn entry_refs_view(assets: Seq<&AssetEntry>) -> Seq<AssetEntryView> {
    assets.map_values(|a: &AssetEntry| a@)
}

pub open spec fn opt_text(s: Option<&str>) -> Option<Seq<char>> {
    match s {
        Some(t) => Some(t@),
        None => None,
    }
}

fn in_folder_exec(asset_folder: &str, folder: Option<&str>) -> (inside: bool)
    ensures
        inside == in_folder(asset_folder@, opt_text(folder)),
{
    match folder {
        None => true,
        Some(f) => {
            let fc = crate::text::chars_of(f);
            if fc.len() == 0 || same_text(asset_folder, f) {
                return true;
            }
            if !starts_with(asset_folder, f) {
                return false;
            }
            let ac = crate::text::chars_of(asset_folder);
            ac.len() > fc.len() && ac[fc.len()] == '/'
        },
    }
}

fn matches_query_exec(asset: &AssetEntry, query: &str) -> (found: bool)
    ensures
        found == matches_query(asset@, query@),
{
    if crate::text::chars_of(query).len() == 0 {
        return true;
    }
    let name = to_lowercase(asset.display_name.as_str());
    if contains(name.as_str(), query) {
        return true;
    }
    let address = to_lowercase(asset.address.as_str());
    if contains(address.as_str(), query) {
        return true;
    }
    let kind = to_lowercase(asset.kind.as_str());
    contains(kind.as_str(), query)
}

proof fn lemma_in_folder_spelled(asset_folder: Seq<char>, folder: Option<Seq<char>>)
    ensures
        in_folder(asset_folder, folder) <==> (folder matches Some(f) ==> f.len() == 0 || asset_folder == f || exists|
            rest: Seq<char>,
        | asset_folder == f + seq!['/'] + rest),
{
    if let Some(f) = folder {
        if has_prefix(asset_folder, f) && asset_folder.len() > f.len() && asset_folder[f.len() as int] == '/' {
            let rest = asset_folder.skip((f.len() + 1) as int);
            assert(asset_folder =~= f + seq!['/'] + rest);
        }
        if exists|rest: Seq<char>| asset_folder == f + seq!['/'] + rest {
            let rest = choose|rest: Seq<char>| asset_folder == f + seq!['/'] + rest;
            assert(asset_folder.take(f.len() as int) =~= f);
            assert(asset_folder[f.len() as int] == (f + seq!['/'] + rest)[f.len() as int]);
        }
    }
}

proof fn lemma_matches_query_spelled(asset: AssetEntryView, query: Seq<char>)
    ensures
        matches_query(asset, query) <==> exists|x: Seq<char>, y: Seq<char>|
            lowercase(asset.display_name) == x + query + y || lowercase(asset.address) == x + query + y
                || lowercase(asset.kind) == x + query + y,
{
    law_holding_is_splitting(lowercase(asset.display_name), query);
    law_holding_is_splitting(lowercase(asset.address), query);
    law_holding_is_splitting(lowercase(asset.kind), query);
    if query.len() == 0 {
        let name = lowercase(asset.display_name);
        assert(name =~= name + query + Seq::<char>::empty());
    }
    if exists|x: Seq<char>, y: Seq<char>|
        lowercase(asset.display_name) == x + query + y || lowercase(asset.address) == x + query + y
            || lowercase(asset.kind) == x + query + y {
        let (x, y) = choose|x: Seq<char>, y: Seq<char>|
            lowercase(asset.display_name) == x + query + y || lowercase(asset.address) == x + query + y
                || lowercase(asset.kind) == x + query + y;
        if lowercase(asset.display_name) == x + query + y {
            assert(contains_text(lowercase(asset.display_name), query));
        } else if lowercase(asset.address) == x + query + y {
            assert(contains_text(lowercase(asset.address), query));
        } else {
            assert(contains_text(lowercase(asset.kind), query));
        }
    }
}

/// The catalogue filter finds every asset it should: one that sits at the
/// folder or below it, is of the kind asked for, and whose lowercase name,
/// address or kind holds the query anywhere is in the result.
pub proof fn law_filter_finds_every_holder(
    assets: Seq<AssetEntryView>,
    query: Seq<char>,
    folder: Option<Seq<char>>,
    kind: Option<Seq<char>>,
    i: int,
    x: Seq<char>,
    y: Seq<char>,
)
    requires
        0 <= i < assets.len(),
        folder matches Some(f) ==> f.len() == 0 || assets[i].folder == f || exists|rest: Seq<char>|
            assets[i].folder == f + seq!['/'] + rest,
        kind matches Some(k) ==> assets[i].kind == k,
        lowercase(assets[i].display_name) == x + query + y || lowercase(assets[i].address) == x + query + y
            || lowercase(assets[i].kind) == x + query + y,
    ensures
        matching_assets(assets, query, folder, kind).contains(assets[i]),
    decreases assets.len(),
{
    let rest = matching_assets(assets.drop_last(), query, folder, kind);
    if i == assets.len() - 1 {
        lemma_in_folder_spelled(assets[i].folder, folder);
        lemma_matches_query_spelled(assets[i], query);
        assert(asset_matches(assets.last(), query, folder, kind));
        assert(matching_assets(assets, query, folder, kind) == rest.push(assets[i]));
        assert(rest.push(assets[i])[rest.len() as int] == assets[i]);
    } else {
        assert(assets.drop_last()[i] == assets[i]);
        law_filter_finds_every_holder(assets.drop_last(), query, folder, kind, i, x, y);
        let j = choose|j: int| 0 <= j < rest.len() && rest[j] == assets[i];
        let all = matching_assets(assets, query, folder, kind);
        if asset_matches(assets.last(), query, folder, kind) {
            assert(all == rest.push(assets.last()));
            assert(all[j] == rest[j]);
        } else {
            assert(all == rest);
        }
    }
}

/// The catalogue filter keeps nothing it should not: every asset in the
/// result is one of the catalogue's, sits at the folder or below it, is of
/// the kind asked for, and has a lowercase name, address or kind that holds
/// the query.
pub proof fn law_filter_keeps_only_holders(
    assets: Seq<AssetEntryView>,
    query: Seq<char>,
    folder: Option<Seq<char>>,
    kind: Option<Seq<char>>,
    found: AssetEntryView,
)
    requires
        matching_assets(assets, query, folder, kind).contains(found),
    ensures
        assets.contains(found),
        folder matches Some(f) ==> f.len() == 0 || found.folder == f || exists|rest: Seq<char>|
            found.folder == f + seq!['/'] + rest,
        kind matches Some(k) ==> found.kind == k,
        exists|x: Seq<char>, y: Seq<char>|
            lowercase(found.display_name) == x + query + y || lowercase(found.address) == x + query + y
                || lowercase(found.kind) == x + query + y,
    decreases assets.len(),
{
    let rest = matching_assets(assets.drop_last(), query, folder, kind);
    let all = matching_assets(assets, query, folder, kind);
    let j = choose|j: int| 0 <= j < all.len() && all[j] == found;
    if asset_matches(assets.last(), query, folder, kind) && j == rest.len() {
        assert(all == rest.push(assets.last()));
        assert(found == assets.last());
        assert(assets[assets.len() - 1] == found);
        lemma_in_folder_spelled(found.folder, folder);
        lemma_matches_query_spelled(found, query);
    } else {
        if asset_matches(assets.last(), query, folder, kind) {
            assert(all == rest.push(assets.last()));
        }
        assert(rest[j] == found);
        law_filter_keeps_only_holders(assets.drop_last(), query, folder, kind, found);
        let k = choose|k: int| 0 <= k < assets.drop_last().len() && assets.drop_last()[k] == found;
        assert(assets[k] == found);
    }
}

/// The project catalogue: every imported asset found under its content root.
#[derive(Debug)]
pub struct Project {
    pub root: String,
    pub assets: Vec<AssetEntry>,
}

impl Project {
    /// The catalogue's scenes, in catalogue order.
    pub fn scenes(&self) -> (scenes: Vec<&AssetEntry>)
        ensures
            entry_refs_view(scenes@) == of_kind(entries_view(self.assets@), "Scene"@),
    {
        let ghost all = entries_view(self.assets@);
        let mut found: Vec<&AssetEntry> = Vec::new();
        let mut i: usize = 0;
        while i < self.assets.len()
            invariant
                0 <= i <= self.assets@.len(),
                all == entries_view(self.assets@),
                entry_refs_view(found@) == of_kind(all.take(i as int), "Scene"@),
            decreases self.assets@.len() - i,
        {
            let asset = &self.assets[i];
            assert(all.take(i + 1).drop_last() =~= all.take(i as int));
            assert(all.take(i + 1).last() == asset@);
            if same_text(asset.kind.as_str(), "Scene") {
                let ghost before = found@;
                found.push(asset);
                assert(entry_refs_view(found@) =~= entry_refs_view(before).push(asset@));
            }
            i = i + 1;
        }
        assert(all.take(self.assets@.len() as int) =~= all);
        found
    }

    /// The assets under `folder` of kind `kind` whose name, address or kind
    /// holds `query`, ignoring case, in catalogue order.
    pub fn filtered_assets<'a>(&'a self, query: &str, folder: Option<&str>, kind: Option<&str>) -> (found: Vec<
        &'a AssetEntry,
    >)
        ensures
            entry_refs_view(found@) == matching_assets(
                entries_view(self.assets@),
                lowercase(query@),
                opt_text(folder),
                opt_text(kind),
            ),
    {
        let query = to_lowercase(query);
        let ghost all = entries_view(self.assets@);
        let mut found: Vec<&AssetEntry> = Vec::new();
        let mut i: usize = 0;
        while i < self.assets.len()
            invariant
                0 <= i <= self.assets@.len(),
                all == entries_view(self.assets@),
                entry_refs_view(found@) == matching_assets(all.take(i as int), query@, opt_text(folder), opt_text(kind)),
            decreases self.assets@.len() - i,
        {
            let asset = &self.assets[i];
            assert(all.take(i + 1).drop_last() =~= all.take(i as int));
            assert(all.take(i + 1).last() == asset@);
            let kind_ok = match kind {
                Some(k) => same_text(asset.kind.as_str(), k),
                None => true,
            };
            if in_folder_exec(asset.folder.as_str(), folder) && kind_ok && matches_query_exec(asset, query.as_str()) {
                let ghost before = found@;
                found.push(asset);
                assert(entry_refs_view(found@) =~= entry_refs_view(before).push(asset@));
            }
            i = i + 1;
        }
        assert(all.take(self.assets@.len() as int) =~= all);
        found
    }
}

/// What the project catalogue holds.
pub struct ProjectView {
    pub root: Seq<char>,
    pub assets: Seq<AssetEntryView>,
}

impl View for Project {
    type V = ProjectView;

    open spec fn view(&self) -> ProjectView {
        ProjectView { root: self.root@, assets: entries_view(self.assets@) }
    }
}

/// A request to the project: open one, or open one of its scenes.
#[derive(Debug)]
pub enum EditorCommand {
    OpenProject(String),
    OpenScene(AssetId),
}

/// How the search for a project ended.
#[derive(Debug)]
pub enum ProjectOutcome {
    Opened(Project),
    /// Nothing was chosen.
    Cancelled,
    /// The folder could not be read as a project; the message says why.
    Failed(String),
}

/// What the project asks the world to do.
#[derive(Debug)]
pub enum ProjectAction {
    /// Look for a project in this folder, away from the frame loop.
    Discover(String),
    /// Open this scene of the project.
    OpenScene { root: String, address: String, id: AssetId },
}

pub enum ProjectActionView {
    Discover(Seq<char>),
    OpenScene { root: Seq<char>, address: Seq<char>, id: AssetId },
}

impl View for ProjectAction {
    type V = ProjectActionView;

    open spec fn view(&self) -> ProjectActionView {
        match self {
            ProjectAction::Discover(path) => ProjectActionView::Discover(path@),
            ProjectAction::OpenScene { root, address, id } => ProjectActionView::OpenScene {
                root: root@,
                address: address@,
                id: *id,
            },
        }
    }
}

/// The open project, what the editor last said about it, and its counters:
/// `revision` moves whenever the status may have changed, `generation`
/// whenever another project becomes the open one.
pub struct ProjectState {
    project: Option<Project>,
    status: String,
    revision: u64,
    generation: u64,
    busy: bool,
}

/// What the project state holds.
pub struct ProjectStateView {
    pub project: Option<ProjectView>,
    pub status: Seq<char>,
    pub revision: u64,
    pub generation: u64,
    pub busy: bool,
}

impl View for ProjectState {
    type V = ProjectStateView;

    closed spec fn view(&self) -> ProjectStateView {
        ProjectStateView {
            project: match self.project {
                Some(p) => Some(p@),
                None => None,
            },
            status: self.status@,
            revision: self.revision,
            generation: self.generation,
            busy: self.busy,
        }
    }
}

/// The status once a project has opened.
pub open spec fn opened_status(project: ProjectView) -> Seq<char> {
    decimal(project.assets.len()) + " imported assets · "@ + decimal(of_kind(project.assets, "Scene"@).len()) + " scenes · "@
        + project.root
}

/// The first scene of the project with identity `id`.
pub open spec fn scene_with_id(project: ProjectView, id: AssetId) -> Option<AssetEntryView> {
    let scenes = of_kind(project.assets, "Scene"@);
    if exists|i: int| 0 <= i < scenes.len() && scenes[i].id == id {
        Some(scenes[choose|i: int| 0 <= i < scenes.len() && scenes[i].id == id && forall|j: int| 0 <= j < i ==> scenes[j].id != id])
    } else {
        None
    }
}

/// What finishing the search for a project does to the state, given whether
/// activating its assets failed (and why). Answers whether open scenes must
/// be cleared.
pub open spec fn finished(s: ProjectStateView, outcome: Option<ProjectView>, failure: Option<Seq<char>>, publish_error: Option<Seq<char>>) -> (ProjectStateView, bool) {
    let s = ProjectStateView { busy: false, revision: (s.revision + 1) as u64, ..s };
    match outcome {
        Some(project) => match publish_error {
            Some(e) => (ProjectStateView { status: "Could not activate project assets: "@ + e, ..s }, false),
            None => (
                ProjectStateView {
                    status: opened_status(project),
                    project: Some(project),
                    generation: (s.generation + 1) as u64,
                    ..s
                },
                true,
            ),
        },
        None => match failure {
            Some(e) => (ProjectStateView { status: "Could not open project: "@ + e, ..s }, false),
            None => (ProjectStateView { status: "Folder selection cancelled."@, ..s }, false),
        },
    }
}

pub enum ProjectCommandView {
    OpenProject(Seq<char>),
    OpenScene(AssetId),
}

impl View for EditorCommand {
    type V = ProjectCommandView;

    open spec fn view(&self) -> ProjectCommandView {
        match self {
            EditorCommand::OpenProject(p) => ProjectCommandView::OpenProject(p@),
            EditorCommand::OpenScene(id) => ProjectCommandView::OpenScene(*id),
        }
    }
}

/// What one command does: nothing while a search is running; opening a
/// project starts one; opening a scene asks for it when the project has it.
pub open spec fn command_step(s: ProjectStateView, actions: Seq<ProjectActionView>, c: ProjectCommandView) -> (ProjectStateView, Seq<ProjectActionView>) {
    if s.busy {
        (s, actions)
    } else {
        let bumped = ProjectStateView { revision: (s.revision + 1) as u64, ..s };
        match c {
            ProjectCommandView::OpenScene(id) => match s.project {
                Some(p) => match scene_with_id(p, id) {
                    Some(scene) => (bumped, actions.push(ProjectActionView::OpenScene { root: p.root, address: scene.address, id })),
                    None => (bumped, actions),
                },
                None => (bumped, actions),
            },
            ProjectCommandView::OpenProject(path) => (
                ProjectStateView { status: "Opening project…"@, busy: true, ..bumped },
                actions.push(ProjectActionView::Discover(path)),
            ),
        }
    }
}

pub open spec fn command_run(s: ProjectStateView, actions: Seq<ProjectActionView>, cmds: Seq<ProjectCommandView>) -> (ProjectStateView, Seq<ProjectActionView>)
    decreases cmds.len(),
{
    if cmds.len() == 0 {
        (s, actions)
    } else {
        let (t, a) = command_step(s, actions, cmds[0]);
        command_run(t, a, cmds.drop_first())
    }
}

/// The address of the project's first scene with identity `id`.
fn scene_address(project: &Project, id: AssetId) -> (address: Option<String>)
    ensures
        match scene_with_id(project@, id) {
            Some(s) => address matches Some(a) && a@ == s.address,
            None => address is None,
        },
{
    let scenes = project.scenes();
    let ghost sv = entry_refs_view(scenes@);
    let mut i: usize = 0;
    while i < scenes.len()
        invariant
            0 <= i <= scenes@.len(),
            sv == entry_refs_view(scenes@),
            sv == of_kind(project@.assets, "Scene"@),
            forall|j: int| 0 <= j < i ==> sv[j].id != id,
        decreases scenes@.len() - i,
    {
        if scenes[i].id == id {
            proof {
                assert(sv[i as int].id == id);
                let c = choose|k: int| 0 <= k < sv.len() && sv[k].id == id && forall|j: int| 0 <= j < k ==> sv[j].id != id;
                assert(0 <= i < sv.len() && sv[i as int].id == id && forall|j: int| 0 <= j < i ==> sv[j].id != id);
                if c < i {
                } else if c > i {
                    assert(sv[i as int].id == id);
                }
            }
            return Some(scenes[i].address.clone());
        }
        i = i + 1;
    }
    None
}

impl ProjectState {
    /// No project, the invitation to choose one, nothing counted yet.
    pub fn new() -> (state: Self)
        ensures
            state@ == (ProjectStateView {
                project: None,
                status: "Choose a project folder to get started."@,
                revision: 0,
                generation: 0,
                busy: false,
            }),
    {
        ProjectState {
            project: None,
            status: String::from_str("Choose a project folder to get started."),
            revision: 0,
            generation: 0,
            busy: false,
        }
    }

    /// Whether a search for a project is running.
    pub fn busy(&self) -> (busy: bool)
        ensures
            busy == self@.busy,
    {
        self.busy
    }

    pub fn status(&self) -> (status: &String)
        ensures
            status@ == self@.status,
    {
        &self.status
    }

    pub fn revision(&self) -> (revision: u64)
        ensures
            revision == self@.revision,
    {
        self.revision
    }

    pub fn generation(&self) -> (generation: u64)
        ensures
            generation == self@.generation,
    {
        self.generation
    }

    pub fn project(&self) -> (project: Option<&Project>)
        ensures
            match project {
                Some(p) => self@.project == Some(p@),
                None => self@.project is None,
            },
    {
        match &self.project {
            Some(p) => Some(p),
            None => None,
        }
    }

    /// Ends the running search with `outcome`. `publish_error` says why the
    /// opened project's assets could not be activated, if they could not;
    /// such a project is not opened. Answers whether the open scenes belong
    /// to a project that is gone and must be cleared.
    pub fn finish(&mut self, outcome: ProjectOutcome, publish_error: Option<String>) -> (clear_scenes: bool)
        requires
            old(self)@.revision < u64::MAX,
            old(self)@.generation < u64::MAX,
        ensures
            (final(self)@, clear_scenes) == finished(
                old(self)@,
                match outcome {
                    ProjectOutcome::Opened(p) => Some(p@),
                    _ => None,
                },
                match outcome {
                    ProjectOutcome::Failed(e) => Some(e@),
                    _ => None,
                },
                match publish_error {
                    Some(e) => Some(e@),
                    None => None,
                },
            ),
    {
        self.busy = false;
        self.revision = self.revision + 1;
        match outcome {
            ProjectOutcome::Opened(project) => {
                match publish_error {
                    Some(e) => {
                        self.status = join("Could not activate project assets: ", e.as_str());
                        false
                    },
                    None => {
                        let scenes = project.scenes().len();
                        let count = decimal_string(project.assets.len() as u64);
                        let a = join(count.as_str(), " imported assets · ");
                        let scene_count = decimal_string(scenes as u64);
                        let b = join(a.as_str(), scene_count.as_str());
                        let c = join(b.as_str(), " scenes · ");
                        self.status = join(c.as_str(), project.root.as_str());
                        self.project = Some(project);
                        self.generation = self.generation + 1;
                        true
                    },
                }
            },
            ProjectOutcome::Cancelled => {
                self.status = String::from_str("Folder selection cancelled.");
                false
            },
            ProjectOutcome::Failed(e) => {
                self.status = join("Could not open project: ", e.as_str());
                false
            },
        }
    }

    /// Runs the queued commands in order. While a search for a project is
    /// running every command is dropped; otherwise each moves the revision.
    /// Answers what the world must do, in order.
    pub fn process_commands(&mut self, commands: Vec<EditorCommand>) -> (actions: Vec<ProjectAction>)
        requires
            old(self)@.revision + commands@.len() <= u64::MAX,
        ensures
            (final(self)@, actions@.map_values(|a: ProjectAction| a@)) == command_run(
                old(self)@,
                Seq::empty(),
                commands@.map_values(|c: EditorCommand| c@),
            ),
    {
        let ghost all = commands@.map_values(|c: EditorCommand| c@);
        let ghost init = self@;
        let mut commands = commands;
        let mut actions: Vec<ProjectAction> = Vec::new();
        let ghost mut done: int = 0;
        assert(all.skip(0) =~= all);
        assert(actions@.map_values(|a: ProjectAction| a@) =~= Seq::<ProjectActionView>::empty());
        while commands.len() > 0
            invariant
                0 <= done <= all.len(),
                commands@.map_values(|c: EditorCommand| c@) == all.skip(done),
                self@.revision + (all.len() - done) <= u64::MAX,
                command_run(self@, actions@.map_values(|a: ProjectAction| a@), all.skip(done)) == command_run(
                    init,
                    Seq::empty(),
                    all,
                ),
            decreases commands@.len(),
        {
            let ghost s = self@;
            let ghost acts = actions@.map_values(|a: ProjectAction| a@);
            let command = commands.remove(0);
            let ghost c = command@;
            assert(all.skip(done)[0] == c);
            assert(all.skip(done).drop_first() =~= all.skip(done + 1));
            assert(commands@.map_values(|c: EditorCommand| c@) =~= all.skip(done + 1));
            if !self.busy {
                match command {
                    EditorCommand::OpenScene(id) => {
                        match &self.project {
                            Some(project) => {
                                match scene_address(project, id) {
                                    Some(address) => {
                                        actions.push(ProjectAction::OpenScene { root: project.root.clone(), address, id });
                                    },
                                    None => {},
                                }
                            },
                            None => {},
                        }
                    },
                    EditorCommand::OpenProject(path) => {
                        self.status = String::from_str("Opening project…");
                        self.busy = true;
                        actions.push(ProjectAction::Discover(path));
                    },
                }
                self.revision = self.revision + 1;
            }
            proof {
                assert(actions@.map_values(|a: ProjectAction| a@) =~= command_step(s, acts, c).1);
                assert(self@ == command_step(s, acts, c).0);
                done = done + 1;
            }
        }
        assert(all.skip(done) =~= Seq::<ProjectCommandView>::empty());
        actions
    }
}

impl Default for ProjectState {
    fn default() -> (value: Self)
        ensures
            value@ == (ProjectStateView {
                project: None,
                status: "Choose a project folder to get started."@,
                revision: 0,
                generation: 0,
                busy: false,
            }),
    {
        ProjectState::new()
    }
}

/// Commands never change which project is open: only a finished search
/// does. Running them keeps the open project and its generation, and asks
/// for at most one action per command.
pub proof fn law_commands_keep_the_open_project(
    s: ProjectStateView,
    actions: Seq<ProjectActionView>,
    cmds: Seq<ProjectCommandView>,
)
    ensures
        command_run(s, actions, cmds).0.project == s.project,
        command_run(s, actions, cmds).0.generation == s.generation,
        actions.len() <= command_run(s, actions, cmds).1.len() <= actions.len() + cmds.len(),
        command_run(s, actions, cmds).1.take(actions.len() as int) == actions,
    decreases cmds.len(),
{
    if cmds.len() > 0 {
        let (t, a) = command_step(s, actions, cmds[0]);
        assert(a.len() <= actions.len() + 1 && a.take(actions.len() as int) =~= actions);
        law_commands_keep_the_open_project(t, a, cmds.drop_first());
        let r = command_run(t, a, cmds.drop_first()).1;
        assert(r.take(actions.len() as int) =~= r.take(a.len() as int).take(actions.len() as int));
    }
}

} // verus!
