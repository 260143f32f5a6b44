//! One scene preview, replaced only after the next asset has loaded
//! successfully. The loading itself runs away from the frame loop; these are
//! the decisions taken around it.
use vstd::prelude::*;
use vstd::string::StringExecFns;

use crate::asset_editor::{asset_request_is_current, finish_asset_request, request_is_current, DocumentView, EditorDocument};
use crate::entity::{AssetId, Entity};
use crate::text::{join, same_text};

verus! {

/// A load that is running: which request of the document it serves, and
/// under which project it started.
#[derive(Clone, Copy, Debug, PartialEq, Eq, Structural)]
pub struct SceneJob {
    pub request: u64,
    pub project: u64,
}

/// What the scene editor asks for before it looks at its running load.
#[derive(Debug)]
pub enum SceneStart {
    /// Nothing new to load.
    Idle,
    /// Load `address` of the project at `root`, which must have identity `id`.
    Load { root: String, address: String, id: AssetId },
    /// A scene was asked for with no project open; the document says so.
    NoProject,
}

/// Whether a running load no longer serves the document: the project moved
/// on, or the document asked for something else since.
pub open spec fn job_is_stale(job: SceneJob, doc: DocumentView, project_generation: u64) -> bool {
    job.project != project_generation || !request_is_current(doc, job.request, project_generation)
}

/// Drops a stale load, then starts one for the document's pending asset if
/// nothing is running and the request belongs to the current project. With
/// no project open, the request fails at once.
pub fn prepare_scene_job(
    doc: &mut EditorDocument,
    job: &mut Option<SceneJob>,
    project_generation: u64,
    project_root: Option<&String>,
) -> (start: SceneStart)
    ensures
        ({
            let kept = match *old(job) {
                Some(j) => if job_is_stale(j, old(doc)@, project_generation) { None } else { Some(j) },
                None => None,
            };
            let wanted = kept is None && old(doc)@.pending is Some && old(doc)@.project_generation
                == project_generation;
            if !wanted {
                &&& *final(job) == kept
                &&& final(doc)@ == old(doc)@
                &&& start is Idle
            } else {
                match project_root {
                    Some(root) => {
                        &&& *final(job) == Some(SceneJob { request: old(doc)@.request_generation, project: project_generation })
                        &&& final(doc)@ == old(doc)@
                        &&& start matches SceneStart::Load { root: r, address, id } && r@ == root@ && address@
                            == old(doc)@.pending.unwrap().address && id == old(doc)@.pending.unwrap().id
                    },
                    None => {
                        &&& *final(job) is None
                        &&& final(doc)@ == (DocumentView {
                            pending: None,
                            status: "Open a project before opening a scene"@,
                            ..old(doc)@
                        })
                        &&& start is NoProject
                    },
                }
            }
        }),
{
    if let Some(j) = *job {
        if j.project != project_generation || !asset_request_is_current(doc, j.request, project_generation) {
            *job = None;
        }
    }
    if job.is_none() && doc.pending.is_some() && doc.project_generation == project_generation {
        let request = doc.request_generation;
        match project_root {
            Some(root) => {
                let (address, id) = match &doc.pending {
                    Some(asset) => (asset.address.clone(), asset.id),
                    None => {
                        return SceneStart::Idle;
                    },
                };
                *job = Some(SceneJob { request, project: project_generation });
                return SceneStart::Load { root: root.clone(), address, id };
            },
            None => {
                let message = String::from_str("Open a project before opening a scene");
                finish_asset_request(doc, request, project_generation, Err(message));
                return SceneStart::NoProject;
            },
        }
    }
    SceneStart::Idle
}

/// Takes the result of a finished load. A load that still serves the
/// document completes it: on success the preview is to be replaced (the
/// answer is `true`), on failure the document says why and keeps its
/// current scene. A load that no longer serves it changes nothing.
pub fn complete_scene_job(doc: &mut EditorDocument, job: SceneJob, project_generation: u64, result: Result<(), String>) -> (replace: bool)
    ensures
        !request_is_current(old(doc)@, job.request, project_generation) ==> !replace && final(doc)@ == old(doc)@,
        request_is_current(old(doc)@, job.request, project_generation) ==> match result {
            Ok(()) => replace && final(doc)@ == (DocumentView {
                current: old(doc)@.pending,
                pending: None,
                title: old(doc)@.pending.unwrap().display_name,
                status: Seq::<char>::empty(),
                ..old(doc)@
            }),
            Err(e) => !replace && final(doc)@ == (DocumentView {
                pending: None,
                status: "Could not open scene: "@ + e@,
                ..old(doc)@
            }),
        },
{
    if !asset_request_is_current(doc, job.request, project_generation) {
        return false;
    }
    match result {
        Ok(()) => {
            finish_asset_request(doc, job.request, project_generation, Ok(()));
            true
        },
        Err(error) => {
            let message = join("Could not open scene: ", error.as_str());
            finish_asset_request(doc, job.request, project_generation, Err(message));
            false
        },
    }
}

/// The presentation summary shared by the hierarchy and the foot: which
/// scene document is shown, what it last said, and whether it is loading.
pub struct SceneState {
    status: String,
    loading: bool,
    document: Option<Entity>,
}

impl SceneState {
    pub closed spec fn spec_status(&self) -> Seq<char> {
        self.status@
    }

    pub fn status(&self) -> (status: &String)
        ensures
            status@ == self.spec_status(),
    {
        &self.status
    }

    pub closed spec fn spec_loading(&self) -> bool {
        self.loading
    }

    pub closed spec fn spec_document(&self) -> Option<Entity> {
        self.document
    }

    pub fn new() -> (state: Self)
        ensures
            state.spec_status() == Seq::<char>::empty(),
            !state.spec_loading(),
            state.spec_document() is None,
    {
        SceneState { status: String::new(), loading: false, document: None }
    }

    pub fn loading(&self) -> (loading: bool)
        ensures
            loading == self.spec_loading(),
    {
        self.loading
    }

    pub fn document(&self) -> (document: Option<Entity>)
        ensures
            document == self.spec_document(),
    {
        self.document
    }

    /// Shows scene document `editor`. Answers whether another document was
    /// shown before it, in which case the selection and the camera belong to
    /// a scene that is gone and must be reset.
    pub fn show(&mut self, editor: Entity, doc: &EditorDocument) -> (switched: bool)
        ensures
            switched == (old(self).spec_document() matches Some(previous) && previous != editor),
            final(self).spec_document() == Some(editor),
            final(self).spec_status() == doc.status@,
            final(self).spec_loading() == doc.pending is Some,
    {
        let switched = match self.document {
            Some(previous) => previous != editor,
            None => false,
        };
        self.document = Some(editor);
        self.status = doc.status.clone();
        self.loading = doc.pending.is_some();
        switched
    }

    /// No scene document is open any more. Answers whether one was shown,
    /// in which case the selection and the camera must be reset.
    pub fn vacate(&mut self) -> (was_shown: bool)
        ensures
            was_shown == old(self).spec_document() is Some,
            was_shown ==> final(self).spec_document() is None && final(self).spec_status() == Seq::<char>::empty()
                && !final(self).spec_loading(),
            !was_shown ==> final(self).spec_document() == old(self).spec_document() && final(self).spec_status() == old(self).spec_status() && final(self).spec_loading() == old(self).spec_loading(),
    {
        if self.document.is_some() {
            self.document = None;
            self.status = String::new();
            self.loading = false;
            true
        } else {
            false
        }
    }
}

impl Default for SceneState {
    fn default() -> (value: Self)
        ensures
            value.spec_status() == Seq::<char>::empty(),
            !value.spec_loading(),
            value.spec_document() is None,
    {
        SceneState::new()
    }
}

/// Why a scene file that was read cannot be shown.
#[derive(Clone, Copy, Debug, PartialEq, Eq, Structural)]
pub enum SceneFileError {
    /// The file now holds another asset than the catalogue said.
    IdentityChanged,
    /// The file holds an asset of another kind.
    NotAScene,
}

pub open spec fn scene_file_error_text(e: SceneFileError) -> Seq<char> {
    match e {
        SceneFileError::IdentityChanged => "Asset identity changed; refresh the project catalogue"@,
        SceneFileError::NotAScene => "Selected asset is not a Scene"@,
    }
}

impl SceneFileError {
    /// What the editor reports for this error.
    pub fn describe(&self) -> (text: &'static str)
        ensures
            text@ == scene_file_error_text(*self),
    {
        match self {
            SceneFileError::IdentityChanged => "Asset identity changed; refresh the project catalogue",
            SceneFileError::NotAScene => "Selected asset is not a Scene",
        }
    }
}

/// Checks the header of the scene file read for asset `id`: it must still
/// be that asset, and a scene.
pub fn check_scene_header(header_id: AssetId, header_kind: &str, id: AssetId) -> (verdict: Result<(), SceneFileError>)
    ensures
        verdict == if header_id != id {
            Err(SceneFileError::IdentityChanged)
        } else if header_kind@ != "Scene"@ {
            Err(SceneFileError::NotAScene)
        } else {
            Ok(())
        },
{
    if header_id.0 != id.0 {
        return Err(SceneFileError::IdentityChanged);
    }
    if !same_text(header_kind, "Scene") {
        return Err(SceneFileError::NotAScene);
    }
    Ok(())
}

} // verus!
