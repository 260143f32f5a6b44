//! The document tab strip: what each tab says, in what order the tabs stand,
//! and what a click on one asks for. Tabs are views over editor documents.
use vstd::prelude::*;
use vstd::string::StringExecFns;

use crate::asset_editor::{AssetEditorCommand, DocumentView, EditorDocument};
use crate::entity::Entity;
use crate::text::{join, same_text};

verus! {

/// What a tab says about its document: the pending asset (marked as still
/// loading), else the current one, else the document's title, flagged when
/// the document has something to report.
pub open spec fn spec_tab_title(doc: DocumentView) -> Seq<char> {
    match doc.pending {
        Some(a) => a.display_name + " ·"@,
        None => match doc.current {
            Some(a) => a.display_name,
            None => if doc.status.len() == 0 {
                doc.title
            } else {
                doc.title + " · error"@
            },
        },
    }
}

/// What a tab says about its document.
pub fn tab_title(doc: &EditorDocument) -> (title: String)
    ensures
        title@ == spec_tab_title(doc@),
{
    match &doc.pending {
        Some(asset) => join(asset.display_name.as_str(), " ·"),
        None => match &doc.current {
            Some(asset) => asset.display_name.clone(),
            None => if doc.status.as_str().unicode_len() == 0 {
                doc.title.clone()
            } else {
                join(doc.title.as_str(), " · error")
            },
        },
    }
}

/// The glyph in front of a tab: a cube for a scene, an image for a texture,
/// a file for anything else, by the kind of the pending or current asset.
pub open spec fn spec_tab_glyph(doc: DocumentView) -> char {
    let kind = match doc.pending {
        Some(a) => a.kind,
        None => match doc.current {
            Some(a) => a.kind,
            None => "Asset"@,
        },
    };
    if kind == "Scene"@ {
        '\u{E1DA}'
    } else if kind == "Texture"@ {
        '\u{E2CA}'
    } else {
        '\u{E230}'
    }
}

/// The glyph in front of a tab.
pub fn tab_glyph(doc: &EditorDocument) -> (glyph: char)
    ensures
        glyph == spec_tab_glyph(doc@),
{
    let kind: &str = match &doc.pending {
        Some(a) => a.kind.as_str(),
        None => match &doc.current {
            Some(a) => a.kind.as_str(),
            None => "Asset",
        },
    };
    if same_text(kind, "Scene") {
        '\u{E1DA}'
    } else if same_text(kind, "Texture") {
        '\u{E2CA}'
    } else {
        '\u{E230}'
    }
}

/// Whether tab `a` stands before tab `b`: by opening order, then by where
/// the documents were listed.
pub open spec fn stands_before(orders: Seq<u64>, a: int, b: int) -> bool {
    orders[a] < orders[b] || (orders[a] == orders[b] && a < b)
}

/// `order` lists every document once, in the order the tabs stand.
pub open spec fn is_tab_order(orders: Seq<u64>, order: Seq<usize>) -> bool {
    &&& order.len() == orders.len()
    &&& forall|k: int| 0 <= k < order.len() ==> (#[trigger] order[k]) < orders.len()
    &&& forall|k: int, l: int|
        0 <= k < l < order.len() ==> stands_before(orders, #[trigger] order[k] as int, #[trigger] order[l] as int)
    &&& forall|d: int| 0 <= d < orders.len() ==> #[trigger] lists(order, d)
}

/// Whether `order` lists document `d`.
pub open spec fn lists(order: Seq<usize>, d: int) -> bool {
    exists|j: int| 0 <= j < order.len() && order[j] as int == d
}

/// The order the tabs stand in, given each document's opening order:
/// ascending, and documents opened together keep the order they were listed
/// in.
pub fn tab_order(orders: &Vec<u64>) -> (order: Vec<usize>)
    ensures
        is_tab_order(orders@, order@),
{
    let mut order: Vec<usize> = Vec::new();
    let mut i: usize = 0;
    while i < orders.len()
        invariant
            0 <= i <= orders@.len(),
            order@.len() == i,
            forall|k: int| 0 <= k < order@.len() ==> (#[trigger] order@[k]) < i,
            forall|k: int, l: int|
                0 <= k < l < order@.len() ==> stands_before(orders@, #[trigger] order@[k] as int, #[trigger] order@[l] as int),
            forall|d: int| 0 <= d < i ==> #[trigger] lists(order@, d),
        decreases orders@.len() - i,
    {
        let key = orders[i];
        let mut pos: usize = 0;
        while pos < order.len() && orders[order[pos]] <= key
            invariant
                0 <= pos <= order@.len(),
                order@.len() == i,
                i < orders@.len(),
                key == orders@[i as int],
                forall|k: int| 0 <= k < order@.len() ==> (#[trigger] order@[k]) < i,
                forall|k: int| 0 <= k < pos ==> orders@[#[trigger] order@[k] as int] <= key,
            decreases order@.len() - pos,
        {
            pos = pos + 1;
        }
        let ghost before = order@;
        order.insert(pos, i);
        proof {
            assert forall|d: int| 0 <= d < i + 1 implies #[trigger] lists(order@, d) by {
                if d == i {
                    assert(order@[pos as int] == i);
                } else {
                    assert(lists(before, d));
                    let j = choose|j: int| 0 <= j < before.len() && before[j] as int == d;
                    if j < pos {
                        assert(order@[j] == before[j]);
                    } else {
                        assert(order@[j + 1] == before[j]);
                    }
                }
            }
            assert forall|k: int| 0 <= k < order@.len() implies (#[trigger] order@[k]) < i + 1 by {
                if k < pos {
                    assert(order@[k] == before[k]);
                } else if k > pos {
                    assert(order@[k] == before[k - 1]);
                }
            }
            assert forall|k: int, l: int| 0 <= k < l < order@.len() implies stands_before(
                orders@,
                #[trigger] order@[k] as int,
                #[trigger] order@[l] as int,
            ) by {
                if pos < before.len() {
                    assert(orders@[before[pos as int] as int] > key);
                }
                if k < pos {
                    assert(order@[k] == before[k]);
                    assert(orders@[before[k] as int] <= key);
                    if l < pos {
                        assert(order@[l] == before[l]);
                    } else if l > pos {
                        assert(order@[l] == before[l - 1]);
                        if k < l - 1 {
                            assert(stands_before(orders@, before[k] as int, before[l - 1] as int));
                        }
                    }
                } else if k == pos {
                    assert(order@[l] == before[l - 1]);
                    if pos < l - 1 {
                        assert(stands_before(orders@, before[pos as int] as int, before[l - 1] as int));
                    }
                } else {
                    assert(order@[k] == before[k - 1]);
                    assert(order@[l] == before[l - 1]);
                }
            }
        }
        i = i + 1;
    }
    order
}

/// What a click in the tab strip asks for: a click on a close button closes
/// its document, a click elsewhere on a tab activates it.
pub fn tab_click(close_of: Option<Entity>, tab_of: Option<Entity>) -> (command: Option<AssetEditorCommand>)
    ensures
        match close_of {
            Some(d) => command matches Some(AssetEditorCommand::Close(e)) && e == d,
            None => match tab_of {
                Some(d) => command matches Some(AssetEditorCommand::Activate(e)) && e == d,
                None => command is None,
            },
        },
{
    match close_of {
        Some(document) => Some(AssetEditorCommand::Close(document)),
        None => match tab_of {
            Some(document) => Some(AssetEditorCommand::Activate(document)),
            None => None,
        },
    }
}

/// What the tab strip does to its buttons this frame: the documents that
/// get a new button, in the order the tabs stand, and the buttons whose
/// document is gone.
#[derive(Debug)]
pub struct TabPlan {
    pub spawn: Vec<Entity>,
    pub despawn: Vec<Entity>,
    /// Every open document, in the order the tabs stand, with whether its
    /// tab is drawn as the active one.
    pub tabs: Vec<(Entity, bool)>,
}

/// The tabs in the order they stand, each with whether it is the active
/// editor's.
pub open spec fn tab_states(documents: Seq<(Entity, u64)>, order: Seq<usize>, active: Option<Entity>) -> Seq<(Entity, bool)> {
    order.map_values(|k: usize| (documents[k as int].0, active == Some(documents[k as int].0)))
}

/// Whether some button shows document `document`.
pub open spec fn has_button(buttons: Seq<(Entity, Entity)>, document: Entity) -> bool {
    exists|i: int| 0 <= i < buttons.len() && buttons[i].1 == document
}

/// Whether `document` is still open.
pub open spec fn is_open(documents: Seq<(Entity, u64)>, document: Entity) -> bool {
    exists|i: int| 0 <= i < documents.len() && documents[i].0 == document
}

/// The documents, in the order `order` lists them, that have no button yet.
pub open spec fn unbuttoned(documents: Seq<(Entity, u64)>, order: Seq<usize>, buttons: Seq<(Entity, Entity)>) -> Seq<Entity>
    decreases order.len(),
{
    if order.len() == 0 {
        Seq::empty()
    } else {
        let rest = unbuttoned(documents, order.drop_last(), buttons);
        let document = documents[order.last() as int].0;
        if has_button(buttons, document) {
            rest
        } else {
            rest.push(document)
        }
    }
}

/// The buttons, in their order, whose document is no longer open.
pub open spec fn orphaned(buttons: Seq<(Entity, Entity)>, documents: Seq<(Entity, u64)>) -> Seq<Entity>
    decreases buttons.len(),
{
    if buttons.len() == 0 {
        Seq::empty()
    } else {
        let rest = orphaned(buttons.drop_last(), documents);
        if is_open(documents, buttons.last().1) {
            rest
        } else {
            rest.push(buttons.last().0)
        }
    }
}

pub open spec fn orders_of(documents: Seq<(Entity, u64)>) -> Seq<u64> {
    documents.map_values(|d: (Entity, u64)| d.1)
}

fn has_button_exec(buttons: &Vec<(Entity, Entity)>, document: Entity) -> (found: bool)
    ensures
        found == has_button(buttons@, document),
{
    let mut i: usize = 0;
    while i < buttons.len()
        invariant
            0 <= i <= buttons@.len(),
            forall|j: int| 0 <= j < i ==> buttons@[j].1 != document,
        decreases buttons@.len() - i,
    {
        if buttons[i].1.0 == document.0 {
            assert(buttons@[i as int].1 == document);
            return true;
        }
        i = i + 1;
    }
    false
}

fn is_open_exec(documents: &Vec<(Entity, u64)>, document: Entity) -> (found: bool)
    ensures
        found == is_open(documents@, document),
{
    let mut i: usize = 0;
    while i < documents.len()
        invariant
            0 <= i <= documents@.len(),
            forall|j: int| 0 <= j < i ==> documents@[j].0 != document,
        decreases documents@.len() - i,
    {
        if documents[i].0.0 == document.0 {
            assert(documents@[i as int].0 == document);
            return true;
        }
        i = i + 1;
    }
    false
}

/// Plans the tab strip for the open `documents` (each with its opening
/// order) and the `buttons` standing (each with its document): a button for
/// every open document without one, in the order the tabs stand, and away
/// with every button whose document closed.
pub fn plan_tabs(documents: &Vec<(Entity, u64)>, buttons: &Vec<(Entity, Entity)>, active: Option<Entity>) -> (plan: TabPlan)
    ensures
        exists|order: Seq<usize>|
            is_tab_order(orders_of(documents@), order) && plan.spawn@ == unbuttoned(documents@, order, buttons@)
                && plan.tabs@ == tab_states(documents@, order, active),
        plan.despawn@ == orphaned(buttons@, documents@),
{
    let mut orders: Vec<u64> = Vec::new();
    let mut k: usize = 0;
    while k < documents.len()
        invariant
            0 <= k <= documents@.len(),
            orders@ == orders_of(documents@).take(k as int),
        decreases documents@.len() - k,
    {
        orders.push(documents[k].1);
        k = k + 1;
        assert(orders@ =~= orders_of(documents@).take(k as int));
    }
    assert(orders@ =~= orders_of(documents@));
    let order = tab_order(&orders);
    let mut spawn: Vec<Entity> = Vec::new();
    let mut tabs: Vec<(Entity, bool)> = Vec::new();
    let mut i: usize = 0;
    while i < order.len()
        invariant
            is_tab_order(orders_of(documents@), order@),
            orders_of(documents@).len() == documents@.len(),
            0 <= i <= order@.len(),
            spawn@ == unbuttoned(documents@, order@.take(i as int), buttons@),
            tabs@ == tab_states(documents@, order@.take(i as int), active),
        decreases order@.len() - i,
    {
        let index = order[i];
        let document = documents[index].0;
        assert(order@.take(i + 1).drop_last() =~= order@.take(i as int));
        assert(order@.take(i + 1).last() == index);
        if !has_button_exec(buttons, document) {
            spawn.push(document);
        }
        let is_active = match active {
            Some(a) => a.0 == document.0,
            None => false,
        };
        tabs.push((document, is_active));
        i = i + 1;
        assert(tabs@ =~= tab_states(documents@, order@.take(i as int), active));
    }
    assert(order@.take(order@.len() as int) =~= order@);
    let mut despawn: Vec<Entity> = Vec::new();
    let mut j: usize = 0;
    while j < buttons.len()
        invariant
            0 <= j <= buttons@.len(),
            despawn@ == orphaned(buttons@.take(j as int), documents@),
        decreases buttons@.len() - j,
    {
        assert(buttons@.take(j + 1).drop_last() =~= buttons@.take(j as int));
        assert(buttons@.take(j + 1).last() == buttons@[j as int]);
        if !is_open_exec(documents, buttons[j].1) {
            despawn.push(buttons[j].0);
        }
        j = j + 1;
    }
    assert(buttons@.take(buttons@.len() as int) =~= buttons@);
    TabPlan { spawn, despawn, tabs }
}

/// The buttons whose document is still open, in their order.
pub open spec fn kept_buttons(buttons: Seq<(Entity, Entity)>, documents: Seq<(Entity, u64)>) -> Seq<(Entity, Entity)>
    decreases buttons.len(),
{
    if buttons.len() == 0 {
        Seq::empty()
    } else {
        let rest = kept_buttons(buttons.drop_last(), documents);
        if is_open(documents, buttons.last().1) {
            rest.push(buttons.last())
        } else {
            rest
        }
    }
}

/// The buttons once a plan is carried out: those whose document is open,
/// then one new button (entity from `fresh`) per document that had none.
pub open spec fn buttons_after(
    buttons: Seq<(Entity, Entity)>,
    documents: Seq<(Entity, u64)>,
    order: Seq<usize>,
    fresh: Seq<Entity>,
) -> Seq<(Entity, Entity)> {
    let spawn = unbuttoned(documents, order, buttons);
    kept_buttons(buttons, documents) + Seq::new(spawn.len(), |j: int| (fresh[j], spawn[j]))
}

proof fn lemma_kept_buttons(buttons: Seq<(Entity, Entity)>, documents: Seq<(Entity, u64)>)
    requires
        forall|i: int, j: int| 0 <= i < j < buttons.len() ==> buttons[i].1 != buttons[j].1,
    ensures
        forall|k: int|
            0 <= k < kept_buttons(buttons, documents).len() ==> is_open(documents, #[trigger] kept_buttons(buttons, documents)[k].1)
                && has_button(buttons, kept_buttons(buttons, documents)[k].1),
        forall|k: int, l: int|
            0 <= k < l < kept_buttons(buttons, documents).len() ==> #[trigger] kept_buttons(buttons, documents)[k].1
                != #[trigger] kept_buttons(buttons, documents)[l].1,
        forall|i: int|
            0 <= i < buttons.len() && is_open(documents, #[trigger] buttons[i].1) ==> has_button(
                kept_buttons(buttons, documents),
                buttons[i].1,
            ),
    decreases buttons.len(),
{
    if buttons.len() > 0 {
        let front = buttons.drop_last();
        let x = buttons.last();
        let rest = kept_buttons(front, documents);
        let kept = kept_buttons(buttons, documents);
        assert forall|i: int, j: int| 0 <= i < j < front.len() implies front[i].1 != front[j].1 by {
            assert(front[i] == buttons[i] && front[j] == buttons[j]);
        }
        lemma_kept_buttons(front, documents);
        assert forall|k: int| 0 <= k < kept.len() implies is_open(documents, #[trigger] kept[k].1) && has_button(buttons, kept[k].1) by {
            if k < rest.len() {
                assert(kept[k] == rest[k]);
                let i = choose|i: int| 0 <= i < front.len() && front[i].1 == rest[k].1;
                assert(buttons[i] == front[i]);
            } else {
                assert(kept[k] == x);
                assert(buttons[buttons.len() - 1] == x);
            }
        }
        assert forall|k: int, l: int| 0 <= k < l < kept.len() implies #[trigger] kept[k].1 != #[trigger] kept[l].1 by {
            if l < rest.len() {
                assert(kept[k] == rest[k] && kept[l] == rest[l]);
            } else {
                assert(kept[k] == rest[k] && kept[l] == x);
                let i = choose|i: int| 0 <= i < front.len() && front[i].1 == rest[k].1;
                assert(buttons[i] == front[i]);
                assert(buttons[i].1 != buttons[buttons.len() - 1].1);
            }
        }
        assert forall|i: int| 0 <= i < buttons.len() && is_open(documents, #[trigger] buttons[i].1) implies has_button(kept, buttons[i].1) by {
            if i < front.len() {
                assert(front[i] == buttons[i]);
                let k = choose|k: int| 0 <= k < rest.len() && rest[k].1 == front[i].1;
                assert(kept[k] == rest[k]);
            } else {
                assert(kept[kept.len() - 1] == x);
            }
        }
    }
}

proof fn lemma_unbuttoned(documents: Seq<(Entity, u64)>, order: Seq<usize>, buttons: Seq<(Entity, Entity)>)
    requires
        forall|k: int| 0 <= k < order.len() ==> (#[trigger] order[k]) < documents.len(),
        forall|k: int, l: int| 0 <= k < l < order.len() ==> #[trigger] order[k] != #[trigger] order[l],
        forall|i: int, j: int| 0 <= i < j < documents.len() ==> documents[i].0 != documents[j].0,
    ensures
        forall|m: int|
            0 <= m < unbuttoned(documents, order, buttons).len() ==> !has_button(buttons, #[trigger] unbuttoned(documents, order, buttons)[m])
                && is_open(documents, unbuttoned(documents, order, buttons)[m]),
        forall|m: int, n: int|
            0 <= m < n < unbuttoned(documents, order, buttons).len() ==> #[trigger] unbuttoned(documents, order, buttons)[m]
                != #[trigger] unbuttoned(documents, order, buttons)[n],
        forall|m: int|
            0 <= m < unbuttoned(documents, order, buttons).len() ==> exists|j: int|
                0 <= j < order.len() && #[trigger] unbuttoned(documents, order, buttons)[m] == documents[order[j] as int].0,
        forall|j: int|
            0 <= j < order.len() && !has_button(buttons, documents[#[trigger] order[j] as int].0) ==> unbuttoned(
                documents,
                order,
                buttons,
            ).contains(documents[order[j] as int].0),
    decreases order.len(),
{
    if order.len() > 0 {
        let front = order.drop_last();
        let rest = unbuttoned(documents, front, buttons);
        let all = unbuttoned(documents, order, buttons);
        let last = order.last();
        let d = documents[last as int].0;
        assert forall|k: int| 0 <= k < front.len() implies (#[trigger] front[k]) < documents.len() by {
            assert(front[k] == order[k]);
        }
        assert forall|k: int, l: int| 0 <= k < l < front.len() implies #[trigger] front[k] != #[trigger] front[l] by {
            assert(front[k] == order[k] && front[l] == order[l]);
        }
        lemma_unbuttoned(documents, front, buttons);
        assert(order[order.len() - 1] == last);
        assert forall|m: int| 0 <= m < all.len() implies !has_button(buttons, #[trigger] all[m]) && is_open(documents, all[m]) by {
            if m < rest.len() {
                assert(all[m] == rest[m]);
            } else {
                assert(all[m] == d);
                assert(documents[last as int].0 == d);
            }
        }
        assert forall|m: int| 0 <= m < all.len() implies exists|j: int| 0 <= j < order.len() && #[trigger] all[m] == documents[order[j] as int].0 by {
            if m < rest.len() {
                assert(all[m] == rest[m]);
                let j = choose|j: int| 0 <= j < front.len() && rest[m] == documents[front[j] as int].0;
                assert(front[j] == order[j]);
            } else {
                assert(all[m] == d);
            }
        }
        assert forall|m: int, n: int| 0 <= m < n < all.len() implies #[trigger] all[m] != #[trigger] all[n] by {
            if n < rest.len() {
                assert(all[m] == rest[m] && all[n] == rest[n]);
            } else {
                assert(all[m] == rest[m] && all[n] == d);
                let j = choose|j: int| 0 <= j < front.len() && rest[m] == documents[front[j] as int].0;
                assert(front[j] == order[j]);
                assert(order[j] != order[order.len() - 1]);
                let a = order[j] as int;
                let b = last as int;
                if a < b {
                    assert(documents[a].0 != documents[b].0);
                } else {
                    assert(documents[b].0 != documents[a].0);
                }
            }
        }
        assert forall|j: int| 0 <= j < order.len() && !has_button(buttons, documents[#[trigger] order[j] as int].0) implies all.contains(
            documents[order[j] as int].0,
        ) by {
            if j < front.len() {
                assert(front[j] == order[j]);
                let m = choose|m: int| 0 <= m < rest.len() && rest[m] == documents[front[j] as int].0;
                assert(all[m] == rest[m]);
            } else {
                assert(all[all.len() - 1] == d);
            }
        }
    }
}

/// Carrying out the plan leaves exactly one button per open document and
/// none for a closed one, whenever the documents are distinct entities and
/// no document had two buttons before: running it again and again never
/// duplicates a tab.
pub proof fn law_one_button_per_document(
    documents: Seq<(Entity, u64)>,
    buttons: Seq<(Entity, Entity)>,
    order: Seq<usize>,
    fresh: Seq<Entity>,
)
    requires
        is_tab_order(orders_of(documents), order),
        forall|i: int, j: int| 0 <= i < j < documents.len() ==> documents[i].0 != documents[j].0,
        forall|i: int, j: int| 0 <= i < j < buttons.len() ==> buttons[i].1 != buttons[j].1,
        fresh.len() == unbuttoned(documents, order, buttons).len(),
    ensures
        ({
            let after = buttons_after(buttons, documents, order, fresh);
            &&& forall|i: int, j: int| 0 <= i < j < after.len() ==> #[trigger] after[i].1 != #[trigger] after[j].1
            &&& forall|i: int| 0 <= i < after.len() ==> is_open(documents, #[trigger] after[i].1)
            &&& forall|k: int| 0 <= k < documents.len() ==> has_button(after, #[trigger] documents[k].0)
        }),
{
    let orders = orders_of(documents);
    assert forall|k: int, l: int| 0 <= k < l < order.len() implies #[trigger] order[k] != #[trigger] order[l] by {
        assert(stands_before(orders, order[k] as int, order[l] as int));
    }
    lemma_kept_buttons(buttons, documents);
    lemma_unbuttoned(documents, order, buttons);
    let kept = kept_buttons(buttons, documents);
    let spawn = unbuttoned(documents, order, buttons);
    let after = buttons_after(buttons, documents, order, fresh);
    assert(after.len() == kept.len() + spawn.len());
    assert forall|i: int| 0 <= i < after.len() implies #[trigger] after[i] == if i < kept.len() {
        kept[i]
    } else {
        (fresh[i - kept.len()], spawn[i - kept.len()])
    } by {}
    assert forall|i: int, j: int| 0 <= i < j < after.len() implies #[trigger] after[i].1 != #[trigger] after[j].1 by {
        if j < kept.len() {
        } else if i < kept.len() {
            assert(has_button(buttons, kept[i].1));
            assert(!has_button(buttons, spawn[j - kept.len()]));
        } else {
            assert(spawn[i - kept.len()] != spawn[j - kept.len()]);
        }
    }
    assert forall|i: int| 0 <= i < after.len() implies is_open(documents, #[trigger] after[i].1) by {
        if i < kept.len() {
            assert(is_open(documents, kept[i].1));
        } else {
            assert(is_open(documents, spawn[i - kept.len()]));
        }
    }
    assert forall|k: int| 0 <= k < documents.len() implies has_button(after, #[trigger] documents[k].0) by {
        let d = documents[k].0;
        assert(is_open(documents, d));
        if has_button(buttons, d) {
            let i = choose|i: int| 0 <= i < buttons.len() && buttons[i].1 == d;
            assert(is_open(documents, buttons[i].1));
            let m = choose|m: int| 0 <= m < kept.len() && kept[m].1 == d;
            assert(after[m] == kept[m]);
        } else {
            assert(lists(order, k));
            let j = choose|j: int| 0 <= j < order.len() && order[j] as int == k;
            assert(documents[order[j] as int].0 == d);
            assert(spawn.contains(d));
            let m = choose|m: int| 0 <= m < spawn.len() && spawn[m] == d;
            assert(after[kept.len() + m] == (fresh[m], spawn[m]));
        }
    }
}

/// One run of the tab strip: the open documents with their opening order,
/// the order the tabs stand in, and the entities the new buttons get.
pub type TabRun = (Seq<(Entity, u64)>, Seq<usize>, Seq<Entity>);

/// Whether a run can be carried out on `buttons`: the order is the tab order
/// of distinct documents, and there is one new entity per button to spawn.
pub open spec fn run_fits(buttons: Seq<(Entity, Entity)>, run: TabRun) -> bool {
    &&& is_tab_order(orders_of(run.0), run.1)
    &&& forall|i: int, j: int| 0 <= i < j < run.0.len() ==> run.0[i].0 != run.0[j].0
    &&& run.2.len() == unbuttoned(run.0, run.1, buttons).len()
}

/// The buttons after carrying out `runs` one after the other.
pub open spec fn buttons_after_runs(buttons: Seq<(Entity, Entity)>, runs: Seq<TabRun>) -> Seq<(Entity, Entity)>
    decreases runs.len(),
{
    if runs.len() == 0 {
        buttons
    } else {
        buttons_after_runs(buttons_after(buttons, runs[0].0, runs[0].1, runs[0].2), runs.drop_first())
    }
}

/// Whether every run fits the buttons the runs before it left.
pub open spec fn runs_fit(buttons: Seq<(Entity, Entity)>, runs: Seq<TabRun>) -> bool
    decreases runs.len(),
{
    runs.len() == 0 || (run_fits(buttons, runs[0]) && runs_fit(
        buttons_after(buttons, runs[0].0, runs[0].1, runs[0].2),
        runs.drop_first(),
    ))
}

/// However many times the tab strip has run, starting from buttons that
/// show no document twice (none at all, say), the buttons show exactly the
/// documents open at the last run, each once.
pub proof fn law_repeated_runs_keep_one_button_per_document(buttons: Seq<(Entity, Entity)>, runs: Seq<TabRun>)
    requires
        forall|i: int, j: int| 0 <= i < j < buttons.len() ==> buttons[i].1 != buttons[j].1,
        runs_fit(buttons, runs),
        runs.len() > 0,
    ensures
        ({
            let after = buttons_after_runs(buttons, runs);
            let documents = runs.last().0;
            &&& forall|i: int, j: int| 0 <= i < j < after.len() ==> #[trigger] after[i].1 != #[trigger] after[j].1
            &&& forall|i: int| 0 <= i < after.len() ==> is_open(documents, #[trigger] after[i].1)
            &&& forall|k: int| 0 <= k < documents.len() ==> has_button(after, #[trigger] documents[k].0)
        }),
    decreases runs.len(),
{
    let run = runs[0];
    assert(run_fits(buttons, run));
    law_one_button_per_document(run.0, buttons, run.1, run.2);
    let next = buttons_after(buttons, run.0, run.1, run.2);
    assert(buttons_after_runs(buttons, runs) == buttons_after_runs(next, runs.drop_first()));
    if runs.len() > 1 {
        assert(runs_fit(next, runs.drop_first()));
        law_repeated_runs_keep_one_button_per_document(next, runs.drop_first());
        assert(runs.drop_first().last() == runs.last());
    } else {
        assert(runs.drop_first().len() == 0);
        assert(buttons_after_runs(next, runs.drop_first()) == next);
        assert(runs.last() == run);
    }
}

} // verus!
