use editor::entity::Entity;
use editor::workspace::{hosts_visible, input_reset, needs_hosts, order_rail, shared_panels_visible, InputReset};

#[test]
fn only_non_scene_editors_get_hosts_of_their_own() {
    assert!(!needs_hosts("Scene"));
    assert!(needs_hosts("Notes"));
    assert!(shared_panels_visible(None));
    assert!(shared_panels_visible(Some("Scene")));
    assert!(!shared_panels_visible(Some("Notes")));
}

#[test]
fn contextual_hosts_follow_active_editor_and_are_removed_on_close() {
    let editor = Entity(4);
    assert!(hosts_visible(Some(editor), editor));
    assert!(!hosts_visible(Some(Entity(5)), editor));
    assert!(!hosts_visible(None, editor));
}

#[test]
fn the_contextual_left_host_stands_before_the_content_browser() {
    let tree = Entity(1);
    let content = Entity(2);
    let left = Entity(3);
    let other = Entity(4);
    let ordered = order_rail(&vec![content, left, tree, other], tree, &vec![left]);
    assert_eq!(ordered, vec![left, tree, content, other]);
}

#[test]
fn unchanged_resources_preserve_focus_and_new_hosts_refresh_without_activation() {
    assert_eq!(input_reset(false, false, true), InputReset { clear_input: false, clear_tree: false });
    assert_eq!(input_reset(true, false, false), InputReset { clear_input: true, clear_tree: false });
}

#[test]
fn panel_changes_refresh_visibility_and_scene_resets_clear_input() {
    assert_eq!(input_reset(false, true, true), InputReset { clear_input: true, clear_tree: true });
    assert_eq!(input_reset(false, true, false), InputReset { clear_input: false, clear_tree: false });
}
