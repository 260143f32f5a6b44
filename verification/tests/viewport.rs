use editor::entity::Entity;
use editor::viewport::{
    apply_workspace_navigation, framing, pointer_buttons, subtree, FrameTarget, Navigation, NavigationRelease,
    PointerButtons, ViewportCommands,
};

#[test]
fn workspace_navigation_requests_release_capture_and_only_reset_pose_on_replacement() {
    let mut navigation = Navigation { looking: true, panning: true };
    let mut commands = ViewportCommands { release_navigation: true, ..ViewportCommands::default() };
    let release = apply_workspace_navigation(&mut commands, &mut navigation);
    assert!(release.captured);
    assert!(!navigation.looking && !navigation.panning);
    assert!(!release.reset_pose);
    assert!(!commands.release_navigation);
    commands.reset = true;
    commands.frame_all = true;
    let release = apply_workspace_navigation(&mut commands, &mut navigation);
    assert!(!release.captured);
    assert!(release.reset_pose);
    assert!(!commands.reset && !commands.frame_all);
}

#[test]
fn without_a_request_navigation_is_left_alone() {
    let mut navigation = Navigation { looking: true, panning: false };
    let mut commands = ViewportCommands { frame_all: true, ..ViewportCommands::new() };
    let release = apply_workspace_navigation(&mut commands, &mut navigation);
    assert_eq!(release, NavigationRelease { captured: false, reset_pose: false });
    assert!(navigation.looking);
    assert!(commands.frame_all);
}

fn buttons(right_pressed: bool, right_released: bool, middle_pressed: bool, over_viewport: bool) -> PointerButtons {
    PointerButtons { right_pressed, right_released, middle_pressed, middle_released: false, over_viewport }
}

#[test]
fn looking_holds_the_pointer_and_starts_only_over_the_viewport() {
    let mut navigation = Navigation { looking: false, panning: false };
    assert_eq!(pointer_buttons(&mut navigation, buttons(true, false, false, false)), None);
    assert!(!navigation.looking);
    assert_eq!(pointer_buttons(&mut navigation, buttons(true, false, true, true)), Some(true));
    assert!(navigation.looking && navigation.panning);
    assert_eq!(pointer_buttons(&mut navigation, buttons(false, true, false, false)), Some(false));
    assert!(!navigation.looking);
    let mut release = buttons(false, false, false, false);
    release.middle_released = true;
    assert_eq!(pointer_buttons(&mut navigation, release), None);
    assert!(!navigation.panning);
}

#[test]
fn framing_prefers_everything_then_the_selection() {
    assert_eq!(framing(true, true, Some(Entity(3))), FrameTarget::Everything);
    assert_eq!(framing(false, true, Some(Entity(3))), FrameTarget::Subtree(Entity(3)));
    assert_eq!(framing(false, true, None), FrameTarget::Nothing);
    assert_eq!(framing(false, false, Some(Entity(3))), FrameTarget::Nothing);
}

#[test]
fn a_subtree_holds_its_root_and_everything_below_it_once() {
    let children = vec![
        (Entity(1), vec![Entity(2), Entity(3)]),
        (Entity(3), vec![Entity(4), Entity(2)]),
        (Entity(4), vec![Entity(1)]),
        (Entity(7), vec![Entity(8)]),
    ];
    let mut found = subtree(Entity(1), &children);
    found.sort_by_key(|e| e.0);
    assert_eq!(found, vec![Entity(1), Entity(2), Entity(3), Entity(4)]);
    let mut leaf = subtree(Entity(8), &children);
    leaf.sort_by_key(|e| e.0);
    assert_eq!(leaf, vec![Entity(8)]);
    let mut other = subtree(Entity(7), &children);
    other.sort_by_key(|e| e.0);
    assert_eq!(other, vec![Entity(7), Entity(8)]);
}
