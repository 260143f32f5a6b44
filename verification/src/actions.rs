//! The editor's named actions and their default bindings.
//!
//! Panels react to actions, never to keys. Rebinding is a change to the table
//! below rather than a hunt through the panels.
use vstd::prelude::*;

verus! {

/// What the user can ask of the editor by keyboard.
#[derive(Clone, Copy, Debug, PartialEq, Eq, Structural)]
pub enum EditorAction {
    /// Frame the current selection in the viewport.
    FrameSelected,
    /// Frame everything in the world.
    FrameAll,
    /// Move the tree selection down one row.
    SelectNext,
    /// Move the tree selection up one row.
    SelectPrevious,
    /// Jump to the first row.
    SelectFirst,
    /// Jump to the last row.
    SelectLast,
    /// Expand the selected row, or step into it.
    ExpandRow,
    /// Collapse the selected row, or step out to its parent.
    CollapseRow,
}

/// Where a binding applies.
#[derive(Clone, Copy, Debug, PartialEq, Eq, Structural)]
pub enum ActionContext {
    /// Active while the pointer is over the 3D viewport.
    Viewport,
    /// Active while keyboard focus is inside the entity tree.
    Tree,
}

/// The keys the default bindings use.
#[derive(Clone, Copy, Debug, PartialEq, Eq, Structural)]
pub enum BoundKey {
    F,
    ArrowDown,
    ArrowUp,
    ArrowLeft,
    ArrowRight,
    Home,
    End,
}

/// One binding: a key, with or without shift, runs an action in a context.
#[derive(Clone, Copy, Debug, PartialEq, Eq, Structural)]
pub struct Binding {
    pub action: EditorAction,
    pub key: BoundKey,
    pub shift: bool,
    pub context: ActionContext,
}

/// The default binding table.
pub open spec fn default_table() -> Seq<Binding> {
    seq![
        Binding { action: EditorAction::FrameSelected, key: BoundKey::F, shift: false, context: ActionContext::Viewport },
        Binding { action: EditorAction::FrameAll, key: BoundKey::F, shift: true, context: ActionContext::Viewport },
        Binding { action: EditorAction::SelectNext, key: BoundKey::ArrowDown, shift: false, context: ActionContext::Tree },
        Binding { action: EditorAction::SelectPrevious, key: BoundKey::ArrowUp, shift: false, context: ActionContext::Tree },
        Binding { action: EditorAction::SelectFirst, key: BoundKey::Home, shift: false, context: ActionContext::Tree },
        Binding { action: EditorAction::SelectLast, key: BoundKey::End, shift: false, context: ActionContext::Tree },
        Binding { action: EditorAction::ExpandRow, key: BoundKey::ArrowRight, shift: false, context: ActionContext::Tree },
        Binding { action: EditorAction::CollapseRow, key: BoundKey::ArrowLeft, shift: false, context: ActionContext::Tree },
    ]
}

/// The default binding table. One place to read, one place to change.
pub fn default_bindings() -> (bindings: Vec<Binding>)
    ensures
        bindings@ == default_table(),
{
    let bindings = vec![
        Binding { action: EditorAction::FrameSelected, key: BoundKey::F, shift: false, context: ActionContext::Viewport },
        Binding { action: EditorAction::FrameAll, key: BoundKey::F, shift: true, context: ActionContext::Viewport },
        Binding { action: EditorAction::SelectNext, key: BoundKey::ArrowDown, shift: false, context: ActionContext::Tree },
        Binding { action: EditorAction::SelectPrevious, key: BoundKey::ArrowUp, shift: false, context: ActionContext::Tree },
        Binding { action: EditorAction::SelectFirst, key: BoundKey::Home, shift: false, context: ActionContext::Tree },
        Binding { action: EditorAction::SelectLast, key: BoundKey::End, shift: false, context: ActionContext::Tree },
        Binding { action: EditorAction::ExpandRow, key: BoundKey::ArrowRight, shift: false, context: ActionContext::Tree },
        Binding { action: EditorAction::CollapseRow, key: BoundKey::ArrowLeft, shift: false, context: ActionContext::Tree },
    ];
    assert(bindings@ =~= default_table());
    bindings
}

/// The default table is unambiguous: no key and shift state runs two
/// actions in one context, and every action has exactly one binding.
pub proof fn law_default_bindings_unambiguous()
    ensures
        forall|i: int, j: int|
            0 <= i < j < default_table().len() ==> {
                let a = #[trigger] default_table()[i];
                let b = #[trigger] default_table()[j];
                !(a.key == b.key && a.shift == b.shift && a.context == b.context) && a.action != b.action
            },
{
}

} // verus!
