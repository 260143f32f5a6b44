use editor::entity::Entity;
use editor::hierarchy::{
    count_label, entity_label, indent_steps, position_label, rebuild_rows, title_label, toggle_label, HierarchyState,
    Row, TreeAction, TreeNode,
};

fn node(entity: u64, name: Option<&str>, children: Vec<TreeNode>) -> TreeNode {
    TreeNode { entity: Entity(entity), name: name.map(|n| n.to_string()), children }
}

/// Two roots, listed out of entity order: a scene root (2) with a camera and
/// a mesh group holding a leaf, and a light (1).
fn world() -> Vec<TreeNode> {
    vec![
        node(
            2,
            None,
            vec![node(5, Some("Camera"), vec![]), node(3, Some("Mesh group"), vec![node(9, Some("Leaf"), vec![])])],
        ),
        node(1, Some("Light"), vec![]),
    ]
}

fn row(entity: u64, depth: usize, has_children: bool) -> Row {
    Row { entity: Entity(entity), depth, has_children }
}

#[test]
fn roots_are_walked_in_entity_order_and_collapsed_by_default() {
    let rows = rebuild_rows(&world(), "", &vec![]);
    assert_eq!(rows, vec![row(1, 0, false), row(2, 0, true)]);
}

#[test]
fn expanded_rows_show_their_children_in_order() {
    let rows = rebuild_rows(&world(), "", &vec![Entity(2), Entity(3)]);
    assert_eq!(
        rows,
        vec![row(1, 0, false), row(2, 0, true), row(5, 1, false), row(3, 1, true), row(9, 2, false)]
    );
}

#[test]
fn a_filter_keeps_the_path_to_every_match_whatever_is_expanded() {
    let rows = rebuild_rows(&world(), "LEAF", &vec![]);
    assert_eq!(rows, vec![row(2, 0, true), row(3, 1, true), row(9, 2, false)]);
    let none = rebuild_rows(&world(), "nothing", &vec![]);
    assert!(none.is_empty());
}

#[test]
fn toggling_a_row_opens_and_closes_it() {
    let mut state = HierarchyState::new();
    let roots = world();
    state.rebuild(&roots);
    state.sync_visible(0, 10);
    state.toggle_slot(1);
    assert!(state.is_expanded(Entity(2)));
    state.rebuild(&roots);
    assert_eq!(state.rows().len(), 4);
    // The light has no children: its toggle does nothing.
    state.toggle_slot(0);
    assert!(!state.is_expanded(Entity(1)));
    state.toggle_slot(1);
    assert!(!state.is_expanded(Entity(2)));
    state.rebuild(&roots);
    assert_eq!(state.rows().len(), 2);
}

#[test]
fn the_keyboard_moves_within_the_tree_and_steps_out_to_parents() {
    let mut state = HierarchyState::new();
    let roots = world();
    state.rebuild(&roots);
    let first = state.keyboard(TreeAction::SelectNext, None);
    assert_eq!(first.select, Some(Entity(1)));
    assert_eq!(first.reveal, Some(0));
    let last = state.keyboard(TreeAction::SelectLast, Some(Entity(1)));
    assert_eq!(last.select, Some(Entity(2)));
    // Moving past the end stays on the last row.
    let past = state.keyboard(TreeAction::SelectNext, Some(Entity(2)));
    assert_eq!(past.select, Some(Entity(2)));
    let open = state.keyboard(TreeAction::ExpandRow, Some(Entity(2)));
    assert_eq!(open.expand, Some(Entity(2)));
    assert!(state.is_expanded(Entity(2)));
    state.rebuild(&roots);
    // Collapsing a closed child steps out to its parent.
    let out = state.keyboard(TreeAction::CollapseRow, Some(Entity(5)));
    assert_eq!(out.select, Some(Entity(2)));
    assert_eq!(out.reveal, Some(1));
    // Collapsing an open row closes it.
    let close = state.keyboard(TreeAction::CollapseRow, Some(Entity(2)));
    assert_eq!(close.collapse, Some(Entity(2)));
    assert!(!state.is_expanded(Entity(2)));
    // Expanding a row without children does nothing.
    let nothing = state.keyboard(TreeAction::ExpandRow, Some(Entity(1)));
    assert_eq!(nothing.expand, None);
    assert_eq!(nothing.select, None);
}

#[test]
fn the_keyboard_does_nothing_in_an_empty_tree() {
    let mut state = HierarchyState::new();
    let moved = state.keyboard(TreeAction::SelectFirst, None);
    assert_eq!(moved.select, None);
    assert_eq!(moved.reveal, None);
}

#[test]
fn a_new_filter_scrolls_back_to_the_top() {
    let mut state = HierarchyState::new();
    state.sync_visible(4, 8);
    state.set_filter("cam".to_string());
    assert_eq!(state.filter(), "cam");
    assert_eq!(state.sync_visible(0, 4), Some(0));
    assert_eq!(state.sync_visible(0, 4), None);
}

#[test]
fn rows_map_onto_the_visible_pool() {
    let mut state = HierarchyState::new();
    let roots = world();
    state.rebuild(&roots);
    state.sync_visible(1, 5);
    assert_eq!(state.row(0), Some(row(2, 0, true)));
    assert_eq!(state.row(1), None);
    assert_eq!(state.select_slot(0), Some(Entity(2)));
    assert!(!state.slot_inactive(0, true));
    assert!(state.slot_inactive(1, false));
    assert_eq!(state.index_of(Entity(2)), Some(1));
    assert_eq!(state.index_of(Entity(9)), None);
}

#[test]
fn labels_describe_the_tree() {
    assert_eq!(title_label(12), "WORLD · 12 entities");
    assert_eq!(position_label(0, 0, 0, true), "Loading…");
    assert_eq!(position_label(0, 0, 0, false), "");
    assert_eq!(position_label(40, 0, 25, false), "1–25 of 40");
    assert_eq!(position_label(20, 10, 25, false), "11–20 of 20");
    assert_eq!(toggle_label(Some(row(1, 0, true)), false, false), "▸");
    assert_eq!(toggle_label(Some(row(1, 0, true)), false, true), "▾");
    assert_eq!(toggle_label(Some(row(1, 0, false)), true, false), "");
    assert_eq!(count_label(Some(row(1, 0, true)), 3), "3");
    assert_eq!(count_label(Some(row(1, 0, false)), 3), "");
    assert_eq!(indent_steps(2), 2);
    assert_eq!(indent_steps(40), 6);
}

#[test]
fn rows_are_named_by_scene_address_then_name_then_index() {
    let address = "content/level.gasset".to_string();
    let name = "Camera".to_string();
    assert_eq!(entity_label(Entity((7 << 32) | 1), Some(&address), Some(&name)), "content/level.gasset");
    assert_eq!(entity_label(Entity((7 << 32) | 1), None, Some(&name)), "Camera");
    assert_eq!(entity_label(Entity((7 << 32) | 1), None, None), "Entity 7");
}
