use editor::actions::{default_bindings, ActionContext, BoundKey, EditorAction};
use editor::dock::{PanelRegistry, Region};
use editor::project::EditorCommand;
use editor::shell::{chatter, is_warning, status_glyph};
use editor::window_chrome::{
    control_request, maximise_glyph, WindowChromePlugin, WindowControl, WindowRequest, PANEL_ID,
};
use editor::EditorPlugin;

#[test]
fn an_undecorated_window_declares_its_buttons_panel() {
    let mut registry = PanelRegistry::new();
    WindowChromePlugin { decorated: false }.build(&mut registry);
    assert_eq!(registry.panels().len(), 1);
    assert_eq!(registry.panels()[0].id, PANEL_ID);
    assert_eq!(registry.panels()[0].title, "Window");
    assert_eq!(registry.panels()[0].region, Region::Stats);
    let mut decorated = PanelRegistry::new();
    WindowChromePlugin { decorated: true }.build(&mut decorated);
    assert!(decorated.panels().is_empty());
}

#[test]
fn window_buttons_minimise_toggle_and_close() {
    assert_eq!(control_request(WindowControl::Minimise, false), WindowRequest::Minimise);
    assert_eq!(control_request(WindowControl::Maximise, false), WindowRequest::SetMaximised(true));
    assert_eq!(control_request(WindowControl::Maximise, true), WindowRequest::SetMaximised(false));
    assert_eq!(control_request(WindowControl::Close, true), WindowRequest::Close);
    assert_eq!(maximise_glyph(true), '\u{E1CE}');
    assert_eq!(maximise_glyph(false), '\u{E1D0}');
}

#[test]
fn the_editor_opens_the_named_project_at_startup() {
    let plugin = EditorPlugin { project: Some("/projects/demo".into()), decorated: true };
    let commands = plugin.startup_commands();
    assert_eq!(commands.len(), 1);
    assert!(matches!(&commands[0], EditorCommand::OpenProject(p) if p == "/projects/demo"));
    assert!(plugin.window_chrome().decorated);
    let bare = EditorPlugin { project: None, decorated: false };
    assert!(bare.startup_commands().is_empty());
    assert!(!bare.window_chrome().decorated);
}

#[test]
fn default_bindings_frame_and_walk_the_tree() {
    let bindings = default_bindings();
    assert_eq!(bindings.len(), 8);
    assert_eq!(bindings[0].action, EditorAction::FrameSelected);
    assert_eq!(bindings[0].key, BoundKey::F);
    assert!(!bindings[0].shift);
    assert_eq!(bindings[1].action, EditorAction::FrameAll);
    assert!(bindings[1].shift);
    assert!(bindings[2..].iter().all(|b| b.context == ActionContext::Tree));
    for (i, a) in bindings.iter().enumerate() {
        for b in &bindings[i + 1..] {
            assert!(!(a.key == b.key && a.shift == b.shift && a.context == b.context));
        }
    }
}

#[test]
fn the_status_line_joins_project_and_scene() {
    assert_eq!(chatter("2 imported assets", false, "Loading level"), "2 imported assets · Loading level");
    assert_eq!(chatter("Opening project…", true, "Loading level"), "Opening project…");
    assert_eq!(chatter("Ready", false, ""), "Ready");
    assert!(is_warning("Could not open scene: FAILED to read"));
    assert!(is_warning("an Error occurred"));
    assert!(!is_warning("2 imported assets"));
    assert_eq!(status_glyph(true), '\u{E4E0}');
    assert_eq!(status_glyph(false), '\u{E2CE}');
}
