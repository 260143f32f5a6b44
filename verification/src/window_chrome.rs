//! What a title bar would have given us, now that the window has none.
//!
//! Move, minimise, maximise, close and resize are the window manager's job
//! normally; undecorated, the application offers them itself, in a panel of
//! its own at the right of the top strip.
use vstd::prelude::*;

use crate::dock::{with_panel, DockedApp, PanelDescriptor, PanelRegistry, PanelView, Region};

verus! {

/// The id of the panel that holds the window buttons.
pub const PANEL_ID: &'static str = "rabbithole.window";

/// Marks an interactive title-strip control that must block window dragging.
/// Tab buttons and their close controls carry it too.
#[derive(Clone, Copy, Default, Debug)]
pub struct WindowChromeControl;

/// The panel the window buttons are built into.
pub open spec fn window_panel() -> PanelView {
    PanelView { id: PANEL_ID@, title: "Window"@, region: Region::Stats }
}

/// Whether the window manager draws the frame.
///
/// Undecorated is what the design asks for; `decorated` hands the whole job
/// back to the window manager, and the editor then declares no window panel.
pub struct WindowChromePlugin {
    pub decorated: bool,
}

impl WindowChromePlugin {
    /// The panel this plugin declares: the window buttons, unless the window
    /// manager draws the frame.
    pub fn panel(&self) -> (panel: Option<PanelDescriptor>)
        ensures
            match panel {
                Some(p) => !self.decorated && p@ == window_panel(),
                None => self.decorated,
            },
    {
        if self.decorated {
            None
        } else {
            Some(PanelDescriptor {
                id: String::from_str(PANEL_ID),
                title: String::from_str("Window"),
                region: Region::Stats,
            })
        }
    }

    /// Declares the plugin's panel on the dock.
    pub fn build(&self, registry: &mut PanelRegistry)
        ensures
            self.decorated ==> final(registry).spec_panels() == old(registry).spec_panels(),
            !self.decorated ==> final(registry).spec_panels() == with_panel(old(registry).spec_panels(), window_panel()),
            old(registry).wf() ==> final(registry).wf(),
            final(registry).spec_bodies() == old(registry).spec_bodies(),
            final(registry).spec_root() == old(registry).spec_root(),
    {
        if let Some(panel) = self.panel() {
            registry.add_panel(panel);
        }
    }
}

/// A button of the title strip.
#[derive(Clone, Copy, Debug, PartialEq, Eq, Structural)]
pub enum WindowControl {
    Minimise,
    Maximise,
    Close,
}

/// What clicking a window button asks of the window.
#[derive(Clone, Copy, Debug, PartialEq, Eq, Structural)]
pub enum WindowRequest {
    Minimise,
    SetMaximised(bool),
    Close,
}

/// What a click on `control` asks of a window that is (or is not)
/// maximised: the maximise button toggles.
pub fn control_request(control: WindowControl, maximised: bool) -> (request: WindowRequest)
    ensures
        request == match control {
            WindowControl::Minimise => WindowRequest::Minimise,
            WindowControl::Maximise => WindowRequest::SetMaximised(!maximised),
            WindowControl::Close => WindowRequest::Close,
        },
{
    match control {
        WindowControl::Minimise => WindowRequest::Minimise,
        WindowControl::Maximise => WindowRequest::SetMaximised(!maximised),
        WindowControl::Close => WindowRequest::Close,
    }
}

/// The glyph on the maximise button: corners pointing in to restore a
/// maximised window, out to maximise one.
pub fn maximise_glyph(maximised: bool) -> (glyph: char)
    ensures
        glyph == if maximised { '\u{E1CE}' } else { '\u{E1D0}' },
{
    if maximised {
        '\u{E1CE}'
    } else {
        '\u{E1D0}'
    }
}

} // verus!
