//! An engine-native editor, as a library: panels submit commands; the project
//! state owns what is open; every rule the shell follows is a verified
//! function over plain values.
use vstd::prelude::*;

pub mod actions;
pub mod asset_editor;
pub mod catalogue;
pub mod content;
pub mod dock;
pub mod entity;
pub mod hierarchy;
pub mod inspector;
pub mod inspector_sync;
pub mod marks;
pub mod project;
pub mod property;
pub mod scene;
pub mod selection;
pub mod shell;
pub mod tabs;
pub mod text;
pub mod viewport;
pub mod window_chrome;
pub mod workspace;

use crate::project::{EditorCommand, ProjectCommandView};
use crate::window_chrome::WindowChromePlugin;

verus! {

/// How the editor starts: the project to open, if one was named, and whether
/// the window manager draws the window frame.
pub struct EditorPlugin {
    pub project: Option<String>,
    /// Let the window manager draw the window frame instead of the editor.
    pub decorated: bool,
}

/// The commands queued before the first frame: opening the named project.
pub open spec fn startup_commands(project: Option<Seq<char>>) -> Seq<ProjectCommandView> {
    match project {
        Some(path) => seq![ProjectCommandView::OpenProject(path)],
        None => Seq::empty(),
    }
}

impl EditorPlugin {
    /// The window chrome the editor installs.
    pub fn window_chrome(&self) -> (plugin: WindowChromePlugin)
        ensures
            plugin.decorated == self.decorated,
    {
        WindowChromePlugin { decorated: self.decorated }
    }

    /// The commands queued before the first frame.
    pub fn startup_commands(&self) -> (commands: Vec<EditorCommand>)
        ensures
            commands@.map_values(|c: EditorCommand| c@) == startup_commands(
                match self.project {
                    Some(p) => Some(p@),
                    None => None,
                },
            ),
    {
        let mut commands: Vec<EditorCommand> = Vec::new();
        if let Some(path) = &self.project {
            commands.push(EditorCommand::OpenProject(path.clone()));
        }
        proof {
            assert(commands@.map_values(|c: EditorCommand| c@) =~= startup_commands(
                match self.project {
                    Some(p) => Some(p@),
                    None => None,
                },
            ));
        }
        commands
    }
}

} // verus!
