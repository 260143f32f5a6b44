//! The viewport's navigation requests: what releasing navigation and
//! resetting the view do, and what a framing request frames.
use vstd::prelude::*;

use crate::entity::Entity;

verus! {

/// Requests to the viewport from the rest of the editor.
#[derive(Debug, Clone, Copy, PartialEq, Eq, Structural)]
pub struct ViewportCommands {
    pub frame_all: bool,
    pub reset: bool,
    pub release_navigation: bool,
}

impl ViewportCommands {
    pub fn new() -> (commands: Self)
        ensures
            commands == (ViewportCommands { frame_all: false, reset: false, release_navigation: false }),
    {
        ViewportCommands { frame_all: false, reset: false, release_navigation: false }
    }
}

/// Whether the fly camera is looking around (holding the pointer) or
/// panning.
#[derive(Debug, Clone, Copy, PartialEq, Eq, Structural)]
pub struct Navigation {
    pub looking: bool,
    pub panning: bool,
}

/// What applying the viewport's navigation requests did.
#[derive(Debug, Clone, Copy, PartialEq, Eq, Structural)]
pub struct NavigationRelease {
    /// The pointer was held and must be let go.
    pub captured: bool,
    /// The camera goes back to its starting pose and speed.
    pub reset_pose: bool,
}

/// Applies workspace navigation requests: any request stops looking and
/// panning; a reset also drops a pending framing and resets the camera.
/// Both requests are consumed.
pub fn apply_workspace_navigation(commands: &mut ViewportCommands, navigation: &mut Navigation) -> (release: NavigationRelease)
    ensures
        !old(commands).release_navigation && !old(commands).reset ==> release == (NavigationRelease {
            captured: false,
            reset_pose: false,
        }) && *final(commands) == *old(commands) && *final(navigation) == *old(navigation),
        old(commands).release_navigation || old(commands).reset ==> {
            &&& release == (NavigationRelease { captured: old(navigation).looking, reset_pose: old(commands).reset })
            &&& *final(navigation) == (Navigation { looking: false, panning: false })
            &&& *final(commands) == (ViewportCommands {
                frame_all: old(commands).frame_all && !old(commands).reset,
                reset: false,
                release_navigation: false,
            })
        },
{
    if !commands.release_navigation && !commands.reset {
        return NavigationRelease { captured: false, reset_pose: false };
    }
    let captured = navigation.looking;
    navigation.looking = false;
    navigation.panning = false;
    let reset_pose = commands.reset;
    if commands.reset {
        commands.frame_all = false;
    }
    commands.reset = false;
    commands.release_navigation = false;
    NavigationRelease { captured, reset_pose }
}

/// What a framing request frames.
#[derive(Debug, Clone, Copy, PartialEq, Eq, Structural)]
pub enum FrameTarget {
    /// Every loaded mesh in the world.
    Everything,
    /// The selected entity and everything below it.
    Subtree(Entity),
    Nothing,
}

/// What to frame this frame: everything when asked to frame all, else the
/// selection's subtree when asked to frame the selection and something is
/// selected. Selecting alone never moves the camera.
pub fn framing(frame_all: bool, frame_selected: bool, selected: Option<Entity>) -> (target: FrameTarget)
    ensures
        target == if frame_all {
            FrameTarget::Everything
        } else if frame_selected && selected is Some {
            FrameTarget::Subtree(selected.unwrap())
        } else {
            FrameTarget::Nothing
        },
{
    if frame_all {
        FrameTarget::Everything
    } else if frame_selected {
        match selected {
            Some(e) => FrameTarget::Subtree(e),
            None => FrameTarget::Nothing,
        }
    } else {
        FrameTarget::Nothing
    }
}

impl Default for ViewportCommands {
    fn default() -> (value: Self)
        ensures
            value == (ViewportCommands { frame_all: false, reset: false, release_navigation: false }),
    {
        ViewportCommands::new()
    }
}

/// The pointer buttons this frame: what went down or up, and whether the
/// pointer is over the viewport.
#[derive(Debug, Clone, Copy, PartialEq, Eq, Structural)]
pub struct PointerButtons {
    pub right_pressed: bool,
    pub right_released: bool,
    pub middle_pressed: bool,
    pub middle_released: bool,
    pub over_viewport: bool,
}

/// Starts and stops looking and panning from the pointer buttons: the right
/// button looks (and holds the pointer) while it is down, the middle button
/// pans; either starts only over the viewport and stops wherever it is let
/// go. Answers whether the pointer is to be held (`Some(true)`) or let go
/// (`Some(false)`), the last request winning, or `None` when neither.
pub fn pointer_buttons(navigation: &mut Navigation, buttons: PointerButtons) -> (capture: Option<bool>)
    ensures
        final(navigation).looking == if buttons.right_released {
            false
        } else if buttons.right_pressed && buttons.over_viewport {
            true
        } else {
            old(navigation).looking
        },
        final(navigation).panning == if buttons.middle_released {
            false
        } else if buttons.middle_pressed && buttons.over_viewport {
            true
        } else {
            old(navigation).panning
        },
        capture == if buttons.right_released {
            Some(false)
        } else if buttons.right_pressed && buttons.over_viewport {
            Some(true)
        } else {
            None::<bool>
        },
{
    let mut capture: Option<bool> = None;
    if buttons.right_pressed && buttons.over_viewport {
        navigation.looking = true;
        capture = Some(true);
    }
    if buttons.right_released {
        navigation.looking = false;
        capture = Some(false);
    }
    if buttons.middle_pressed && buttons.over_viewport {
        navigation.panning = true;
    }
    if buttons.middle_released {
        navigation.panning = false;
    }
    capture
}

/// The children the hierarchy lists for `e`: those of its first entry.
pub open spec fn kids_of(rel: Seq<(Entity, Seq<Entity>)>, e: Entity) -> Seq<Entity>
    decreases rel.len(),
{
    if rel.len() == 0 {
        Seq::empty()
    } else if rel[0].0 == e {
        rel[0].1
    } else {
        kids_of(rel.drop_first(), e)
    }
}

/// Whether `e` is at most `n` steps below `root`.
pub open spec fn reach_within(rel: Seq<(Entity, Seq<Entity>)>, root: Entity, e: Entity, n: nat) -> bool
    decreases n,
{
    if n == 0 {
        e == root
    } else {
        reach_within(rel, root, e, (n - 1) as nat) || exists|p: Entity|
            #![trigger kids_of(rel, p).contains(e)]
            reach_within(rel, root, p, (n - 1) as nat) && kids_of(rel, p).contains(e)
    }
}

/// Whether `e` is in `root`'s subtree: `root` itself, or a child of an
/// entity in it.
pub open spec fn in_subtree(rel: Seq<(Entity, Seq<Entity>)>, root: Entity, e: Entity) -> bool {
    exists|n: nat| reach_within(rel, root, e, n)
}

pub open spec fn hierarchy_view(children: Seq<(Entity, Vec<Entity>)>) -> Seq<(Entity, Seq<Entity>)> {
    children.map_values(|c: (Entity, Vec<Entity>)| (c.0, c.1@))
}

/// Every child any entry lists, entry by entry.
pub open spec fn all_kids(rel: Seq<(Entity, Seq<Entity>)>) -> Seq<Entity>
    decreases rel.len(),
{
    if rel.len() == 0 {
        Seq::empty()
    } else {
        rel[0].1 + all_kids(rel.drop_first())
    }
}

proof fn lemma_kids_listed(rel: Seq<(Entity, Seq<Entity>)>, e: Entity, k: Entity)
    requires
        kids_of(rel, e).contains(k),
    ensures
        all_kids(rel).contains(k),
    decreases rel.len(),
{
    if rel.len() > 0 {
        if rel[0].0 == e {
            let i = choose|i: int| 0 <= i < rel[0].1.len() && rel[0].1[i] == k;
            assert((rel[0].1 + all_kids(rel.drop_first()))[i] == k);
        } else {
            lemma_kids_listed(rel.drop_first(), e, k);
            let i = choose|i: int| 0 <= i < all_kids(rel.drop_first()).len() && all_kids(rel.drop_first())[i] == k;
            assert((rel[0].1 + all_kids(rel.drop_first()))[rel[0].1.len() + i] == k);
        }
    }
}

fn children_of<'a>(children: &'a Vec<(Entity, Vec<Entity>)>, e: Entity) -> (kids: Option<&'a Vec<Entity>>)
    ensures
        match kids {
            Some(k) => k@ == kids_of(hierarchy_view(children@), e),
            None => kids_of(hierarchy_view(children@), e) == Seq::<Entity>::empty(),
        },
{
    let ghost rel = hierarchy_view(children@);
    let mut i: usize = 0;
    assert(rel.skip(0) =~= rel);
    while i < children.len()
        invariant
            rel == hierarchy_view(children@),
            0 <= i <= children@.len(),
            kids_of(rel, e) == kids_of(rel.skip(i as int), e),
        decreases children@.len() - i,
    {
        assert(rel.skip(i as int)[0] == rel[i as int]);
        assert(rel.skip(i as int).drop_first() =~= rel.skip(i + 1));
        if children[i].0.0 == e.0 {
            return Some(&children[i].1);
        }
        i = i + 1;
    }
    assert(rel.skip(i as int) =~= Seq::<(Entity, Seq<Entity>)>::empty());
    None
}

fn holds(found: &Vec<Entity>, e: Entity) -> (held: bool)
    ensures
        held == found@.contains(e),
{
    let mut i: usize = 0;
    while i < found.len()
        invariant
            0 <= i <= found@.len(),
            forall|j: int| 0 <= j < i ==> found@[j] != e,
        decreases found@.len() - i,
    {
        if found[i].0 == e.0 {
            assert(found@[i as int] == e);
            return true;
        }
        i = i + 1;
    }
    false
}

/// Every entity in `root`'s subtree, `root` included, each once; `children`
/// lists each entity's children.
pub fn subtree(root: Entity, children: &Vec<(Entity, Vec<Entity>)>) -> (found: Vec<Entity>)
    ensures
        found@.no_duplicates(),
        forall|e: Entity| found@.contains(e) <==> in_subtree(hierarchy_view(children@), root, e),
{
    let ghost rel = hierarchy_view(children@);
    let ghost pool = seq![root] + all_kids(rel);
    let mut found: Vec<Entity> = Vec::new();
    let mut stack: Vec<Entity> = Vec::new();
    stack.push(root);
    proof {
        assert(pool[0] == root);
        assert(reach_within(rel, root, root, 0));
    }
    while stack.len() > 0
        invariant
            rel == hierarchy_view(children@),
            pool == seq![root] + all_kids(rel),
            found@.no_duplicates(),
            found@.len() <= pool.len(),
            found@.contains(root) || stack@.contains(root),
            forall|e: Entity| #[trigger] found@.contains(e) ==> pool.contains(e) && in_subtree(rel, root, e),
            forall|e: Entity| #[trigger] stack@.contains(e) ==> pool.contains(e) && in_subtree(rel, root, e),
            forall|f: Entity, k: Entity|
                found@.contains(f) && #[trigger] kids_of(rel, f).contains(k) ==> found@.contains(k) || stack@.contains(k),
        decreases pool.len() - found@.len(), stack@.len(),
    {
        let ghost before_stack = stack@;
        let e = stack.pop().unwrap();
        proof {
            assert(before_stack.last() == e);
            assert(before_stack.contains(e));
            assert(before_stack =~= stack@.push(e));
            assert forall|x: Entity| before_stack.contains(x) implies stack@.contains(x) || x == e by {
                let i = choose|i: int| 0 <= i < before_stack.len() && before_stack[i] == x;
                if i < stack@.len() {
                    assert(stack@[i] == x);
                }
            }
            assert forall|x: Entity| #[trigger] stack@.contains(x) implies before_stack.contains(x) by {
                let i = choose|i: int| 0 <= i < stack@.len() && stack@[i] == x;
                assert(before_stack[i] == x);
            }
        }
        if holds(&found, e) {
            continue;
        }
        let ghost before_found = found@;
        found.push(e);
        proof {
            assert forall|x: Entity| #[trigger] found@.contains(x) <==> before_found.contains(x) || x == e by {
                if found@.contains(x) {
                    let i = choose|i: int| 0 <= i < found@.len() && found@[i] == x;
                    if i < before_found.len() {
                        assert(before_found[i] == x);
                    }
                }
                if before_found.contains(x) {
                    let i = choose|i: int| 0 <= i < before_found.len() && before_found[i] == x;
                    assert(found@[i] == x);
                }
                if x == e {
                    assert(found@[before_found.len() as int] == x);
                }
            }
            assert(found@.no_duplicates());
            found@.unique_seq_to_set();
            assert(found@.to_set().subset_of(pool.to_set()));
            vstd::seq_lib::seq_to_set_is_finite(pool);
            vstd::set_lib::lemma_len_subset(found@.to_set(), pool.to_set());
            pool.lemma_cardinality_of_set();
        }
        let ghost stack_before_kids = stack@;
        let ghost n = choose|n: nat| reach_within(rel, root, e, n);
        match children_of(children, e) {
            Some(kids) => {
                let mut j: usize = 0;
                while j < kids.len()
                    invariant
                        kids@ == kids_of(rel, e),
                        0 <= j <= kids@.len(),
                        reach_within(rel, root, e, n),
                        pool == seq![root] + all_kids(rel),
                        stack@ == stack_before_kids + kids@.take(j as int),
                    decreases kids@.len() - j,
                {
                    stack.push(kids[j]);
                    j = j + 1;
                    assert(stack@ =~= stack_before_kids + kids@.take(j as int));
                }
                proof {
                    assert(kids@.take(kids@.len() as int) =~= kids@);
                }
            },
            None => {
                assert(stack@ =~= stack_before_kids + kids_of(rel, e));
            },
        }
        proof {
            assert(stack@ == stack_before_kids + kids_of(rel, e));
            assert forall|x: Entity| #[trigger] stack@.contains(x) implies pool.contains(x) && in_subtree(rel, root, x) by {
                let i = choose|i: int| 0 <= i < stack@.len() && stack@[i] == x;
                if i < stack_before_kids.len() {
                    assert(stack_before_kids[i] == x);
                    assert(stack_before_kids.contains(x));
                } else {
                    assert(kids_of(rel, e)[i - stack_before_kids.len()] == x);
                    assert(kids_of(rel, e).contains(x));
                    lemma_kids_listed(rel, e, x);
                    let k = choose|k: int| 0 <= k < all_kids(rel).len() && all_kids(rel)[k] == x;
                    assert(pool[k + 1] == x);
                    assert(reach_within(rel, root, x, n + 1));
                }
            }
            assert forall|x: Entity| stack_before_kids.contains(x) implies #[trigger] stack@.contains(x) by {
                let i = choose|i: int| 0 <= i < stack_before_kids.len() && stack_before_kids[i] == x;
                assert(stack@[i] == x);
            }
            assert forall|x: Entity| kids_of(rel, e).contains(x) implies #[trigger] stack@.contains(x) by {
                let i = choose|i: int| 0 <= i < kids_of(rel, e).len() && kids_of(rel, e)[i] == x;
                assert(stack@[stack_before_kids.len() + i] == x);
            }
        }
    }
    proof {
        assert forall|x: Entity| in_subtree(rel, root, x) implies found@.contains(x) by {
            let n = choose|n: nat| reach_within(rel, root, x, n);
            lemma_subtree_found(rel, root, found@, x, n);
        }
    }
    found
}

proof fn lemma_subtree_found(rel: Seq<(Entity, Seq<Entity>)>, root: Entity, found: Seq<Entity>, x: Entity, n: nat)
    requires
        found.contains(root),
        forall|f: Entity, k: Entity| found.contains(f) && #[trigger] kids_of(rel, f).contains(k) ==> found.contains(k),
        reach_within(rel, root, x, n),
    ensures
        found.contains(x),
    decreases n,
{
    if n > 0 {
        if reach_within(rel, root, x, (n - 1) as nat) {
            lemma_subtree_found(rel, root, found, x, (n - 1) as nat);
        } else {
            let p = choose|p: Entity| reach_within(rel, root, p, (n - 1) as nat) && kids_of(rel, p).contains(x);
            lemma_subtree_found(rel, root, found, p, (n - 1) as nat);
        }
    }
}

} // verus!
