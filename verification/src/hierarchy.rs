//! The world tree: live entities, walked through their children, rooted at
//! the scenes that were spawned into the world, flattened into the rows the
//! panel shows.
use vstd::prelude::*;

use crate::entity::Entity;
use crate::text::{
    contains, contains_text, decimal, decimal_string, join, law_holding_is_splitting, lowercase, to_lowercase,
};
use vstd::string::StringExecFns;

verus! {

/// One entity of the live world and what the tree shows of it.
#[derive(Debug)]
pub struct TreeNode {
    pub entity: Entity,
    pub name: Option<String>,
    pub children: Vec<TreeNode>,
}

/// One visible line of the tree.
#[derive(Clone, Copy, PartialEq, Eq, Debug, Structural)]
pub struct Row {
    pub entity: Entity,
    pub depth: usize,
    pub has_children: bool,
}

/// The row a node itself takes, at `depth`.
pub open spec fn own_row(node: TreeNode, depth: int) -> Row {
    Row { entity: node.entity, depth: depth as usize, has_children: node.children@.len() > 0 }
}

/// How many levels a node spans, itself included.
pub open spec fn height(node: TreeNode) -> nat
    decreases node, 1int,
{
    1 + forest_height(node.children@)
}

/// The tallest height among `nodes`, or 0 when there are none.
pub open spec fn forest_height(nodes: Seq<TreeNode>) -> nat
    decreases nodes, 0int,
{
    if nodes.len() == 0 {
        0
    } else {
        let rest = forest_height(nodes.drop_last());
        let last = height(nodes.last());
        if last > rest {
            last
        } else {
            rest
        }
    }
}

/// The rows of a node and, when it is expanded, of its children below it.
pub open spec fn node_rows(node: TreeNode, depth: int, expanded: Set<Entity>) -> Seq<Row>
    decreases node, 1int,
{
    seq![own_row(node, depth)] + if expanded.contains(node.entity) {
        forest_rows(node.children@, depth + 1, expanded)
    } else {
        Seq::empty()
    }
}

/// The rows of several nodes, one after another.
pub open spec fn forest_rows(nodes: Seq<TreeNode>, depth: int, expanded: Set<Entity>) -> Seq<Row>
    decreases nodes, 0int,
{
    if nodes.len() == 0 {
        Seq::empty()
    } else {
        forest_rows(nodes.drop_last(), depth, expanded) + node_rows(nodes.last(), depth, expanded)
    }
}

/// Whether a node's own name matches a lowercase filter.
pub open spec fn name_matches(node: TreeNode, filter: Seq<char>) -> bool {
    node.name matches Some(n) && contains_text(lowercase(n@), filter)
}

/// The rows of a node while filtering: the node is kept when it or any
/// descendant matches, so a match is never orphaned from the path that
/// leads to it, and filtered branches are always expanded.
pub open spec fn node_filtered(node: TreeNode, depth: int, filter: Seq<char>) -> Seq<Row>
    decreases node, 1int,
{
    let kids = forest_filtered(node.children@, depth + 1, filter);
    if name_matches(node, filter) || kids.len() > 0 {
        seq![own_row(node, depth)] + kids
    } else {
        Seq::empty()
    }
}

pub open spec fn forest_filtered(nodes: Seq<TreeNode>, depth: int, filter: Seq<char>) -> Seq<Row>
    decreases nodes, 0int,
{
    if nodes.len() == 0 {
        Seq::empty()
    } else {
        forest_filtered(nodes.drop_last(), depth, filter) + node_filtered(nodes.last(), depth, filter)
    }
}

proof fn lemma_child_height(node: TreeNode, i: int)
    requires
        0 <= i < node.children@.len(),
    ensures
        height(node.children@[i]) < height(node),
{
    lemma_forest_height(node.children@, i);
}

proof fn lemma_forest_height(nodes: Seq<TreeNode>, i: int)
    requires
        0 <= i < nodes.len(),
    ensures
        height(nodes[i]) <= forest_height(nodes),
    decreases nodes.len(),
{
    if i < nodes.len() - 1 {
        lemma_forest_height(nodes.drop_last(), i);
        assert(nodes.drop_last()[i] == nodes[i]);
    }
}

fn position_of_entity(set: &Vec<Entity>, entity: Entity) -> (found: Option<usize>)
    ensures
        match found {
            Some(i) => i < set@.len() && set@[i as int] == entity,
            None => !set@.contains(entity),
        },
{
    let mut i: usize = 0;
    while i < set.len()
        invariant
            0 <= i <= set@.len(),
            forall|j: int| 0 <= j < i ==> set@[j] != entity,
        decreases set@.len() - i,
    {
        if set[i] == entity {
            return Some(i);
        }
        i = i + 1;
    }
    None
}

fn contains_entity(set: &Vec<Entity>, entity: Entity) -> (found: bool)
    ensures
        found == set@.contains(entity),
{
    let mut i: usize = 0;
    while i < set.len()
        invariant
            0 <= i <= set@.len(),
            forall|j: int| 0 <= j < i ==> set@[j] != entity,
        decreases set@.len() - i,
    {
        if set[i] == entity {
            assert(set@[i as int] == entity);
            return true;
        }
        i = i + 1;
    }
    false
}

/// Appends the rows of `node` at `depth`, walking into expanded nodes.
pub fn push_rows(node: &TreeNode, depth: usize, expanded: &Vec<Entity>, rows: &mut Vec<Row>)
    requires
        depth + height(*node) <= usize::MAX,
    ensures
        final(rows)@ == old(rows)@ + node_rows(*node, depth as int, expanded@.to_set()),
    decreases node,
{
    let ghost start = rows@;
    rows.push(Row { entity: node.entity, depth, has_children: node.children.len() > 0 });
    if contains_entity(expanded, node.entity) {
        let mut i: usize = 0;
        while i < node.children.len()
            invariant
                0 <= i <= node.children@.len(),
                depth + height(*node) <= usize::MAX,
                rows@ == start + seq![own_row(*node, depth as int)] + forest_rows(
                    node.children@.take(i as int),
                    depth + 1,
                    expanded@.to_set(),
                ),
            decreases node.children@.len() - i,
        {
            proof {
                lemma_child_height(*node, i as int);
                assert(node.children@.take(i + 1).drop_last() =~= node.children@.take(i as int));
                assert(node.children@.take(i + 1).last() == node.children@[i as int]);
            }
            push_rows(&node.children[i], depth + 1, expanded, rows);
            i = i + 1;
        }
        assert(node.children@.take(node.children@.len() as int) =~= node.children@);
        assert(rows@ =~= start + node_rows(*node, depth as int, expanded@.to_set()));
    } else {
        assert(rows@ =~= start + node_rows(*node, depth as int, expanded@.to_set()));
    }
}

/// Appends the rows of `node` that survive the lowercase `filter`, and
/// answers whether the node was kept.
pub fn push_filtered_rows(node: &TreeNode, depth: usize, filter: &str, rows: &mut Vec<Row>) -> (kept: bool)
    requires
        depth + height(*node) <= usize::MAX,
    ensures
        final(rows)@ == old(rows)@ + node_filtered(*node, depth as int, filter@),
        kept == (node_filtered(*node, depth as int, filter@).len() > 0),
    decreases node,
{
    let ghost start = rows@;
    let at = rows.len();
    rows.push(Row { entity: node.entity, depth, has_children: node.children.len() > 0 });
    let matched = match &node.name {
        Some(name) => {
            let lower = to_lowercase(name.as_str());
            contains(lower.as_str(), filter)
        },
        None => false,
    };
    let mut kept = matched;
    let mut i: usize = 0;
    while i < node.children.len()
        invariant
            0 <= i <= node.children@.len(),
            depth + height(*node) <= usize::MAX,
            at == start.len(),
            matched == name_matches(*node, filter@),
            kept == (matched || forest_filtered(node.children@.take(i as int), depth + 1, filter@).len() > 0),
            rows@ == start + seq![own_row(*node, depth as int)] + forest_filtered(
                node.children@.take(i as int),
                depth + 1,
                filter@,
            ),
        decreases node.children@.len() - i,
    {
        proof {
            lemma_child_height(*node, i as int);
            assert(node.children@.take(i + 1).drop_last() =~= node.children@.take(i as int));
            assert(node.children@.take(i + 1).last() == node.children@[i as int]);
        }
        let child_kept = push_filtered_rows(&node.children[i], depth + 1, filter, rows);
        kept = kept || child_kept;
        i = i + 1;
    }
    assert(node.children@.take(node.children@.len() as int) =~= node.children@);
    if !kept {
        rows.truncate(at);
        assert(rows@ =~= start + node_filtered(*node, depth as int, filter@));
    } else {
        assert(rows@ =~= start + node_filtered(*node, depth as int, filter@));
    }
    kept
}

/// `order` lists every root once, in ascending entity order.
pub open spec fn is_root_order(roots: Seq<TreeNode>, order: Seq<usize>) -> bool {
    &&& order.len() == roots.len()
    &&& forall|k: int| 0 <= k < order.len() ==> (#[trigger] order[k]) < roots.len()
    &&& forall|k: int, l: int| 0 <= k < l < order.len() ==> #[trigger] order[k] != #[trigger] order[l]
    &&& forall|k: int, l: int|
        0 <= k < l < order.len() ==> (#[trigger] roots[order[k] as int]).entity.0 <= (#[trigger] roots[order[l] as int]).entity.0
}

/// The roots in the order `order` lists them.
pub open spec fn ordered_roots(roots: Seq<TreeNode>, order: Seq<usize>) -> Seq<TreeNode> {
    order.map_values(|i: usize| roots[i as int])
}

/// The order to walk the roots in: by entity, so the tree does not reshuffle
/// with query order.
pub fn root_order(roots: &Vec<TreeNode>) -> (order: Vec<usize>)
    ensures
        is_root_order(roots@, order@),
{
    let mut order: Vec<usize> = Vec::new();
    let mut i: usize = 0;
    while i < roots.len()
        invariant
            0 <= i <= roots@.len(),
            order@.len() == i,
            forall|k: int| 0 <= k < order@.len() ==> (#[trigger] order@[k]) < i,
            forall|k: int, l: int| 0 <= k < l < order@.len() ==> #[trigger] order@[k] != #[trigger] order@[l],
            forall|k: int, l: int|
                0 <= k < l < order@.len() ==> (#[trigger] roots@[order@[k] as int]).entity.0 <= (
                #[trigger] roots@[order@[l] as int]).entity.0,
        decreases roots@.len() - i,
    {
        let key = roots[i].entity.0;
        let mut pos: usize = 0;
        while pos < order.len() && roots[order[pos]].entity.0 <= key
            invariant
                0 <= pos <= order@.len(),
                order@.len() == i,
                i < roots@.len(),
                key == roots@[i as int].entity.0,
                forall|k: int| 0 <= k < order@.len() ==> (#[trigger] order@[k]) < i,
                forall|k: int| 0 <= k < pos ==> (#[trigger] roots@[order@[k] as int]).entity.0 <= key,
            decreases order@.len() - pos,
        {
            pos = pos + 1;
        }
        let ghost before = order@;
        order.insert(pos, i);
        proof {
            assert forall|k: int| 0 <= k < order@.len() implies (#[trigger] order@[k]) < i + 1 by {
                if k < pos {
                    assert(order@[k] == before[k]);
                } else if k > pos {
                    assert(order@[k] == before[k - 1]);
                }
            }
            assert forall|k: int, l: int| 0 <= k < l < order@.len() implies #[trigger] order@[k]
                != #[trigger] order@[l] by {
                if k < pos {
                    assert(order@[k] == before[k]);
                } else if k > pos {
                    assert(order@[k] == before[k - 1]);
                }
                if l < pos {
                    assert(order@[l] == before[l]);
                } else if l > pos {
                    assert(order@[l] == before[l - 1]);
                }
            }
            assert forall|k: int, l: int|
                0 <= k < l < order@.len() implies (#[trigger] roots@[order@[k] as int]).entity.0 <= (
                #[trigger] roots@[order@[l] as int]).entity.0 by {
                if pos < before.len() {
                    assert(roots@[before[pos as int] as int].entity.0 > key);
                }
                if k < pos {
                    assert(order@[k] == before[k]);
                    if l < pos {
                        assert(order@[l] == before[l]);
                    } else if l > pos {
                        assert(order@[l] == before[l - 1]);
                        if k < l - 1 {
                            assert(roots@[before[k] as int].entity.0 <= roots@[before[l - 1] as int].entity.0);
                        }
                    }
                } else if k == pos {
                    assert(order@[l] == before[l - 1]);
                    if pos < l - 1 {
                        assert(roots@[before[pos as int] as int].entity.0 <= roots@[before[l - 1] as int].entity.0);
                    }
                } else {
                    assert(order@[k] == before[k - 1]);
                    assert(order@[l] == before[l - 1]);
                }
            }
        }
        i = i + 1;
    }
    order
}

/// While filtering, every node whose lowercase name holds the filter
/// anywhere (not only at its start) shows its own row among the rows of
/// the nodes it stands with.
pub proof fn law_filter_shows_matching_names(nodes: Seq<TreeNode>, depth: int, filter: Seq<char>, k: int, x: Seq<char>, y: Seq<char>)
    requires
        0 <= k < nodes.len(),
        nodes[k].name matches Some(n) && lowercase(n@) == x + filter + y,
    ensures
        forest_filtered(nodes, depth, filter).contains(own_row(nodes[k], depth)),
    decreases nodes.len(),
{
    let front = forest_filtered(nodes.drop_last(), depth, filter);
    let all = forest_filtered(nodes, depth, filter);
    assert(all == front + node_filtered(nodes.last(), depth, filter));
    if k == nodes.len() - 1 {
        let n = nodes[k].name->0;
        law_holding_is_splitting(lowercase(n@), filter);
        assert(name_matches(nodes.last(), filter));
        assert(node_filtered(nodes.last(), depth, filter)[0] == own_row(nodes[k], depth));
        assert(all[front.len() as int] == own_row(nodes[k], depth));
    } else {
        assert(nodes.drop_last()[k] == nodes[k]);
        law_filter_shows_matching_names(nodes.drop_last(), depth, filter, k, x, y);
        let j = choose|j: int| 0 <= j < front.len() && front[j] == own_row(nodes[k], depth);
        assert(all[j] == front[j]);
    }
}

/// Without a filter, every node shows its own row among the rows of the
/// nodes it stands with.
pub proof fn law_every_node_is_shown_unfiltered(nodes: Seq<TreeNode>, depth: int, expanded: Set<Entity>, k: int)
    requires
        0 <= k < nodes.len(),
    ensures
        forest_rows(nodes, depth, expanded).contains(own_row(nodes[k], depth)),
    decreases nodes.len(),
{
    let front = forest_rows(nodes.drop_last(), depth, expanded);
    let all = forest_rows(nodes, depth, expanded);
    assert(all == front + node_rows(nodes.last(), depth, expanded));
    if k == nodes.len() - 1 {
        assert(node_rows(nodes.last(), depth, expanded)[0] == own_row(nodes[k], depth));
        assert(all[front.len() as int] == own_row(nodes[k], depth));
    } else {
        assert(nodes.drop_last()[k] == nodes[k]);
        law_every_node_is_shown_unfiltered(nodes.drop_last(), depth, expanded, k);
        let j = choose|j: int| 0 <= j < front.len() && front[j] == own_row(nodes[k], depth);
        assert(all[j] == front[j]);
    }
}

/// While filtering, a node shows exactly when its own lowercase name holds
/// the filter or some row below it is shown; when it shows, its own row
/// comes first and every row shown below it follows, so a match deep in the
/// tree keeps the whole path down to it.
pub proof fn law_filter_keeps_paths_to_matches(node: TreeNode, depth: int, filter: Seq<char>)
    ensures
        ({
            let rows = node_filtered(node, depth, filter);
            let below = forest_filtered(node.children@, depth + 1, filter);
            let holds = node.name matches Some(n) && exists|x: Seq<char>, y: Seq<char>| lowercase(n@) == x + filter + y;
            &&& rows.len() > 0 <==> holds || below.len() > 0
            &&& rows.len() > 0 ==> rows[0] == own_row(node, depth) && forall|r: Row| below.contains(r) ==> rows.contains(r)
        }),
{
    if let Some(n) = node.name {
        law_holding_is_splitting(lowercase(n@), filter);
    }
    let rows = node_filtered(node, depth, filter);
    let below = forest_filtered(node.children@, depth + 1, filter);
    assert forall|r: Row| rows.len() > 0 && below.contains(r) implies rows.contains(r) by {
        let j = choose|j: int| 0 <= j < below.len() && below[j] == r;
        assert(rows[j + 1] == below[j]);
    }
}

/// While filtering, every row a node shows is among the rows of the nodes
/// it stands with.
pub proof fn law_filter_keeps_each_node_rows(nodes: Seq<TreeNode>, depth: int, filter: Seq<char>, k: int, r: Row)
    requires
        0 <= k < nodes.len(),
        node_filtered(nodes[k], depth, filter).contains(r),
    ensures
        forest_filtered(nodes, depth, filter).contains(r),
    decreases nodes.len(),
{
    let front = forest_filtered(nodes.drop_last(), depth, filter);
    let all = forest_filtered(nodes, depth, filter);
    assert(all == front + node_filtered(nodes.last(), depth, filter));
    if k == nodes.len() - 1 {
        let j = choose|j: int| 0 <= j < node_filtered(nodes.last(), depth, filter).len() && node_filtered(nodes.last(), depth, filter)[j] == r;
        assert(all[front.len() + j] == r);
    } else {
        assert(nodes.drop_last()[k] == nodes[k]);
        law_filter_keeps_each_node_rows(nodes.drop_last(), depth, filter, k, r);
        let j = choose|j: int| 0 <= j < front.len() && front[j] == r;
        assert(all[j] == front[j]);
    }
}

/// The rebuilt tree shows every root at the top level when there is no
/// filter, and, while filtering, every root whose lowercase name holds the
/// lowercase filter anywhere in it.
pub proof fn law_rebuild_shows_matching_roots(
    roots: Seq<TreeNode>,
    order: Seq<usize>,
    filter: Seq<char>,
    expanded: Set<Entity>,
    m: int,
    x: Seq<char>,
    y: Seq<char>,
)
    requires
        is_root_order(roots, order),
        0 <= m < order.len(),
        lowercase(filter).len() == 0 || (roots[order[m] as int].name matches Some(n) && lowercase(n@) == x
            + lowercase(filter) + y),
    ensures
        tree_rows(roots, order, filter, expanded).contains(own_row(roots[order[m] as int], 0)),
{
    let ordered = ordered_roots(roots, order);
    assert(ordered[m] == roots[order[m] as int]);
    if lowercase(filter).len() == 0 {
        law_every_node_is_shown_unfiltered(ordered, 0, expanded, m);
    } else {
        law_filter_shows_matching_names(ordered, 0, lowercase(filter), m, x, y);
    }
}

/// The rows the tree shows for `roots`: every root and the expanded parts
/// below it, or, while a filter is set, what matches it and the paths to it.
pub open spec fn tree_rows(
    roots: Seq<TreeNode>,
    order: Seq<usize>,
    filter: Seq<char>,
    expanded: Set<Entity>,
) -> Seq<Row> {
    let lower = lowercase(filter);
    if lower.len() == 0 {
        forest_rows(ordered_roots(roots, order), 0, expanded)
    } else {
        forest_filtered(ordered_roots(roots, order), 0, lower)
    }
}

/// Walks the live world into a flat row list.
pub fn rebuild_rows(roots: &Vec<TreeNode>, filter: &str, expanded: &Vec<Entity>) -> (rows: Vec<Row>)
    requires
        forall|i: int| 0 <= i < roots@.len() ==> height(#[trigger] roots@[i]) <= usize::MAX,
    ensures
        exists|order: Seq<usize>|
            is_root_order(roots@, order) && rows@ == tree_rows(roots@, order, filter@, expanded@.to_set()),
{
    let order = root_order(roots);
    let lower = to_lowercase(filter);
    let ghost ordered = ordered_roots(roots@, order@);
    let mut rows: Vec<Row> = Vec::new();
    let mut k: usize = 0;
    let empty = lower.as_str().unicode_len() == 0;
    while k < order.len()
        invariant
            is_root_order(roots@, order@),
            forall|i: int| 0 <= i < roots@.len() ==> height(#[trigger] roots@[i]) <= usize::MAX,
            ordered == ordered_roots(roots@, order@),
            0 <= k <= order@.len(),
            lower@ == lowercase(filter@),
            empty == (lower@.len() == 0),
            empty ==> rows@ == forest_rows(ordered.take(k as int), 0, expanded@.to_set()),
            !empty ==> rows@ == forest_filtered(ordered.take(k as int), 0, lower@),
        decreases order@.len() - k,
    {
        let root = &roots[order[k]];
        proof {
            assert(ordered.take(k + 1).drop_last() =~= ordered.take(k as int));
            assert(ordered.take(k + 1).last() == roots@[order@[k as int] as int]);
            assert(height(roots@[order@[k as int] as int]) <= usize::MAX);
        }
        if empty {
            push_rows(root, 0, expanded, &mut rows);
        } else {
            push_filtered_rows(root, 0, lower.as_str(), &mut rows);
        }
        k = k + 1;
    }
    assert(ordered.take(order@.len() as int) =~= ordered);
    rows
}

/// A tree action the keyboard can fire while focus is in the tree.
#[derive(Clone, Copy, PartialEq, Eq, Debug, Structural)]
pub enum TreeAction {
    SelectNext,
    SelectPrevious,
    SelectFirst,
    SelectLast,
    ExpandRow,
    CollapseRow,
}

/// The first row showing `e`.
#[verifier::opaque]
pub open spec fn row_index(rows: Seq<Row>, e: Entity) -> Option<int> {
    if exists|i: int| 0 <= i < rows.len() && rows[i].entity == e {
        Some(choose|i: int| 0 <= i < rows.len() && rows[i].entity == e && forall|j: int| 0 <= j < i ==> rows[j].entity != e)
    } else {
        None
    }
}

/// The nearest row above `at` that is shallower than it: its parent.
#[verifier::opaque]
pub open spec fn parent_index(rows: Seq<Row>, at: int) -> Option<int> {
    if exists|i: int| 0 <= i < at && rows[i].depth < rows[at].depth {
        Some(choose|i: int| 0 <= i < at && rows[i].depth < rows[at].depth && forall|j: int| i < j < at ==> rows[j].depth >= rows[at].depth)
    } else {
        None
    }
}

/// What a keyboard action does: the row to select and bring into view, or
/// the row to expand or collapse.
pub struct TreeMove {
    pub select: Option<Entity>,
    pub reveal: Option<usize>,
    pub expand: Option<Entity>,
    pub collapse: Option<Entity>,
}

/// What `action` does when `selected` is selected, the rows are `rows` and
/// `expanded` are open. The four moves select a row by position; expanding
/// opens the selected row if it has children; collapsing closes it if it is
/// open, and otherwise steps out to its parent.
pub open spec fn tree_move(rows: Seq<Row>, selected: Option<Entity>, expanded: Set<Entity>, action: TreeAction) -> TreeMove {
    let position = selected_row(rows, selected);
    let none = TreeMove { select: None, reveal: None, expand: None, collapse: None };
    match moved_row(action, position, rows.len() - 1) {
        Some(next) => TreeMove { select: Some(rows[next].entity), reveal: Some(next as usize), ..none },
        None => match position {
            None => none,
            Some(at) => {
                let row = rows[at];
                if action == TreeAction::ExpandRow {
                    if row.has_children {
                        TreeMove { expand: Some(row.entity), ..none }
                    } else {
                        none
                    }
                } else if expanded.contains(row.entity) {
                    TreeMove { collapse: Some(row.entity), ..none }
                } else {
                    match parent_index(rows, at) {
                        Some(p) => TreeMove {
                            select: Some(rows[p].entity),
                            reveal: match row_index(rows, rows[p].entity) {
                                Some(r) => Some(r as usize),
                                None => None,
                            },
                            ..none
                        },
                        None => none,
                    }
                }
            },
        },
    }
}

/// An index as a mathematical integer.
pub open spec fn index_int(i: Option<usize>) -> Option<int> {
    match i {
        Some(n) => Some(n as int),
        None => None,
    }
}

/// The row the selection stands on.
pub open spec fn selected_row(rows: Seq<Row>, selected: Option<Entity>) -> Option<int> {
    match selected {
        Some(e) => row_index(rows, e),
        None => None,
    }
}

/// The row a move lands on: the first, the last, or one step from where the
/// selection stands (from the top when nothing is selected), kept in range.
pub open spec fn moved_row(action: TreeAction, position: Option<int>, last: int) -> Option<int> {
    match action {
        TreeAction::SelectFirst => Some(0),
        TreeAction::SelectLast => Some(last),
        TreeAction::SelectNext => Some(
            match position {
                Some(at) => if at < last { at + 1 } else { last },
                None => 0,
            },
        ),
        TreeAction::SelectPrevious => Some(
            match position {
                Some(at) => if at > 0 { at - 1 } else { 0 },
                None => 0,
            },
        ),
        _ => None,
    }
}

proof fn lemma_first_row_of(rows: Seq<Row>, at: int)
    requires
        0 <= at < rows.len(),
        forall|j: int| 0 <= j < at ==> rows[j].entity != rows[at].entity,
    ensures
        row_index(rows, rows[at].entity) == Some(at),
{
    reveal(row_index);
    let e = rows[at].entity;
    let c = choose|i: int| 0 <= i < rows.len() && rows[i].entity == e && forall|j: int| 0 <= j < i ==> rows[j].entity != e;
    if c < at {
        assert(rows[c].entity != e);
    } else if c > at {
        assert(rows[at].entity != e);
    }
}

/// Stepping through the tree by keyboard from the selected row `at` (the
/// first row that shows the selected entity): the next move goes one row
/// down and stays on the last row, the previous move goes one row up and
/// stays on the first, and the first and last moves go to the ends. Each
/// selects the row it lands on and brings that row into view, opening and
/// closing nothing.
pub proof fn law_keyboard_steps_one_row(rows: Seq<Row>, expanded: Set<Entity>, at: int)
    requires
        0 <= at < rows.len(),
        forall|j: int| 0 <= j < at ==> rows[j].entity != rows[at].entity,
    ensures
        ({
            let selected = Some(rows[at].entity);
            let down = if at + 1 < rows.len() { at + 1 } else { at };
            let up = if at > 0 { at - 1 } else { 0 };
            let last = rows.len() - 1;
            &&& tree_move(rows, selected, expanded, TreeAction::SelectNext) == (TreeMove {
                select: Some(rows[down].entity),
                reveal: Some(down as usize),
                expand: None,
                collapse: None,
            })
            &&& tree_move(rows, selected, expanded, TreeAction::SelectPrevious) == (TreeMove {
                select: Some(rows[up].entity),
                reveal: Some(up as usize),
                expand: None,
                collapse: None,
            })
            &&& tree_move(rows, selected, expanded, TreeAction::SelectFirst) == (TreeMove {
                select: Some(rows[0].entity),
                reveal: Some(0usize),
                expand: None,
                collapse: None,
            })
            &&& tree_move(rows, selected, expanded, TreeAction::SelectLast) == (TreeMove {
                select: Some(rows[last].entity),
                reveal: Some(last as usize),
                expand: None,
                collapse: None,
            })
        }),
{
    lemma_first_row_of(rows, at);
}

/// With nothing selected, or a selection the tree does not show, the next
/// and previous moves both go to the first row.
pub proof fn law_keyboard_starts_at_the_top(rows: Seq<Row>, expanded: Set<Entity>, selected: Option<Entity>)
    requires
        rows.len() > 0,
        selected matches Some(e) ==> forall|j: int| 0 <= j < rows.len() ==> rows[j].entity != e,
    ensures
        tree_move(rows, selected, expanded, TreeAction::SelectNext) == (TreeMove {
            select: Some(rows[0].entity),
            reveal: Some(0usize),
            expand: None,
            collapse: None,
        }),
        tree_move(rows, selected, expanded, TreeAction::SelectPrevious) == (TreeMove {
            select: Some(rows[0].entity),
            reveal: Some(0usize),
            expand: None,
            collapse: None,
        }),
{
    reveal(row_index);
}

/// Opening and closing by keyboard from the selected row `at` (the first
/// row that shows the selected entity): opening asks to expand the row when
/// it has children and does nothing otherwise; closing collapses the row
/// when it is open, and otherwise steps out to its parent, the nearest row
/// above it that is shallower, selecting it and bringing into view the
/// first row that shows it. A row without a shallower row above it closes
/// to nothing.
pub proof fn law_keyboard_opens_and_closes(rows: Seq<Row>, expanded: Set<Entity>, at: int)
    requires
        0 <= at < rows.len(),
        forall|j: int| 0 <= j < at ==> rows[j].entity != rows[at].entity,
    ensures
        ({
            let selected = Some(rows[at].entity);
            let none = TreeMove { select: None, reveal: None, expand: None, collapse: None };
            let open = tree_move(rows, selected, expanded, TreeAction::ExpandRow);
            let close = tree_move(rows, selected, expanded, TreeAction::CollapseRow);
            &&& open == if rows[at].has_children {
                TreeMove { expand: Some(rows[at].entity), ..none }
            } else {
                none
            }
            &&& expanded.contains(rows[at].entity) ==> close == (TreeMove { collapse: Some(rows[at].entity), ..none })
            &&& !expanded.contains(rows[at].entity) ==> close.expand is None && close.collapse is None
            &&& !expanded.contains(rows[at].entity) && (forall|j: int| 0 <= j < at ==> rows[j].depth >= rows[at].depth)
                ==> close == none
            &&& !expanded.contains(rows[at].entity) && (exists|j: int| 0 <= j < at && rows[j].depth < rows[at].depth)
                ==> exists|q: int, r: int|
                0 <= q < at && rows[q].depth < rows[at].depth && (forall|j: int| q < j < at ==> rows[j].depth
                    >= rows[at].depth) && 0 <= r <= q && rows[r].entity == rows[q].entity && (forall|j: int|
                    0 <= j < r ==> rows[j].entity != rows[q].entity) && close == (TreeMove {
                    select: Some(rows[q].entity),
                    reveal: Some(r as usize),
                    ..none
                })
        }),
{
    lemma_first_row_of(rows, at);
    reveal(parent_index);
    if exists|j: int| 0 <= j < at && rows[j].depth < rows[at].depth {
        let q = choose|i: int| 0 <= i < at && rows[i].depth < rows[at].depth && forall|j: int| i < j < at ==> rows[j].depth >= rows[at].depth;
        let w = choose|j: int| 0 <= j < at && rows[j].depth < rows[at].depth;
        lemma_nearest_shallower(rows, at, w);
        assert(parent_index(rows, at) == Some(q));
        let r = lemma_earliest_row(rows, q);
        lemma_first_row_of(rows, r);
        assert(row_index(rows, rows[q].entity) == Some(r));
    }
}

proof fn lemma_nearest_shallower(rows: Seq<Row>, at: int, w: int)
    requires
        0 <= w < at < rows.len(),
        rows[w].depth < rows[at].depth,
    ensures
        exists|i: int| 0 <= i < at && rows[i].depth < rows[at].depth && forall|j: int| i < j < at ==> rows[j].depth >= rows[at].depth,
    decreases at - w,
{
    if exists|j: int| w < j < at && rows[j].depth < rows[at].depth {
        let v = choose|j: int| w < j < at && rows[j].depth < rows[at].depth;
        lemma_nearest_shallower(rows, at, v);
    } else {
        assert(forall|j: int| w < j < at ==> rows[j].depth >= rows[at].depth);
    }
}

proof fn lemma_earliest_row(rows: Seq<Row>, q: int) -> (r: int)
    requires
        0 <= q < rows.len(),
    ensures
        0 <= r <= q,
        rows[r].entity == rows[q].entity,
        forall|j: int| 0 <= j < r ==> rows[j].entity != rows[q].entity,
    decreases q,
{
    if exists|j: int| 0 <= j < q && rows[j].entity == rows[q].entity {
        let j = choose|j: int| 0 <= j < q && rows[j].entity == rows[q].entity;
        lemma_earliest_row(rows, j)
    } else {
        q
    }
}

/// The open rows once `e` is toggled: closed if it was open, opened if not.
pub open spec fn toggled(expanded: Set<Entity>, e: Entity) -> Set<Entity> {
    if expanded.contains(e) {
        expanded.remove(e)
    } else {
        expanded.insert(e)
    }
}

/// Toggling a row twice leaves every row as open as it was.
pub proof fn law_toggling_twice_restores(expanded: Set<Entity>, e: Entity)
    ensures
        toggled(toggled(expanded, e), e) == expanded,
        toggled(expanded, e).contains(e) != expanded.contains(e),
{
    assert(toggled(toggled(expanded, e), e) =~= expanded);
}

/// The tree panel's own state: its rows, which rows are open, the filter,
/// the rows mapped onto the recycled row pool, and a row to bring into view.
pub struct HierarchyState {
    rows: Vec<Row>,
    expanded: Vec<Entity>,
    filter: String,
    visible_start: usize,
    visible_end: usize,
    reveal: Option<usize>,
}

impl HierarchyState {
    pub closed spec fn spec_rows(&self) -> Seq<Row> {
        self.rows@
    }

    pub closed spec fn spec_expanded(&self) -> Set<Entity> {
        self.expanded@.to_set()
    }

    pub closed spec fn spec_filter(&self) -> Seq<char> {
        self.filter@
    }

    pub closed spec fn spec_visible(&self) -> (usize, usize) {
        (self.visible_start, self.visible_end)
    }

    pub closed spec fn spec_reveal(&self) -> Option<usize> {
        self.reveal
    }

    /// Every open entity is listed once.
    pub closed spec fn wf(&self) -> bool {
        self.expanded@.no_duplicates()
    }

    /// No rows, nothing open, no filter, nothing visible.
    pub fn new() -> (state: Self)
        ensures
            state.wf(),
            state.spec_rows() == Seq::<Row>::empty(),
            state.spec_expanded() == Set::<Entity>::empty(),
            state.spec_filter() == Seq::<char>::empty(),
            state.spec_visible() == (0usize, 0usize),
            state.spec_reveal() is None,
    {
        let state = HierarchyState {
            rows: Vec::new(),
            expanded: Vec::new(),
            filter: String::new(),
            visible_start: 0,
            visible_end: 0,
            reveal: None,
        };
        assert(state.expanded@.to_set() =~= Set::<Entity>::empty());
        state
    }

    pub fn rows(&self) -> (rows: &Vec<Row>)
        ensures
            rows@ == self.spec_rows(),
    {
        &self.rows
    }

    pub fn filter(&self) -> (filter: &String)
        ensures
            filter@ == self.spec_filter(),
    {
        &self.filter
    }

    pub fn is_expanded(&self, entity: Entity) -> (open: bool)
        ensures
            open == self.spec_expanded().contains(entity),
    {
        contains_entity(&self.expanded, entity)
    }

    fn open_row(&mut self, entity: Entity)
        requires
            old(self).wf(),
        ensures
            final(self).wf(),
            final(self).spec_expanded() == old(self).spec_expanded().insert(entity),
            final(self).spec_rows() == old(self).spec_rows(),
            final(self).spec_filter() == old(self).spec_filter(),
            final(self).spec_visible() == old(self).spec_visible(),
            final(self).spec_reveal() == old(self).spec_reveal(),
    {
        if !contains_entity(&self.expanded, entity) {
            let ghost before = self.expanded@;
            self.expanded.push(entity);
            proof {
                before.lemma_push_to_set_commute(entity);
                assert(self.expanded@ == before.push(entity));
                assert forall|i: int, j: int|
                    0 <= i < self.expanded@.len() && 0 <= j < self.expanded@.len() && i != j implies self.expanded@[i]
                    != self.expanded@[j] by {
                    if j == before.len() {
                        assert(before[i] == self.expanded@[i]);
                        assert(before.contains(before[i]));
                    } else if i == before.len() {
                        assert(before[j] == self.expanded@[j]);
                        assert(before.contains(before[j]));
                    } else {
                        assert(before[i] != before[j]);
                    }
                }
            }
        } else {
            assert(self.expanded@.to_set() =~= self.expanded@.to_set().insert(entity));
        }
    }

    /// Closes `entity`, answering whether it was open.
    fn close_row(&mut self, entity: Entity) -> (was_open: bool)
        requires
            old(self).wf(),
        ensures
            final(self).wf(),
            was_open == old(self).spec_expanded().contains(entity),
            final(self).spec_expanded() == old(self).spec_expanded().remove(entity),
            final(self).spec_rows() == old(self).spec_rows(),
            final(self).spec_filter() == old(self).spec_filter(),
            final(self).spec_visible() == old(self).spec_visible(),
            final(self).spec_reveal() == old(self).spec_reveal(),
    {
        let ghost before = self.expanded@;
        match position_of_entity(&self.expanded, entity) {
            Some(i) => {
                self.expanded.remove(i);
                proof {
                    assert(before[i as int] == entity);
                    assert forall|x: Entity| #[trigger] self.expanded@.to_set().contains(x) == before.to_set().remove(
                        entity,
                    ).contains(x) by {
                        if self.expanded@.contains(x) {
                            let k = choose|k: int| 0 <= k < self.expanded@.len() && self.expanded@[k] == x;
                            let k2 = if k < i { k } else { k + 1 };
                            assert(before[k2] == x);
                            assert(k2 != i);
                            assert(before.contains(x));
                        }
                        if before.contains(x) && x != entity {
                            let k = choose|k: int| 0 <= k < before.len() && before[k] == x;
                            assert(k != i);
                            let k2 = if k < i { k } else { k - 1 };
                            assert(self.expanded@[k2] == x);
                        }
                    }
                    assert(self.expanded@.to_set() =~= before.to_set().remove(entity));
                    assert forall|a: int, b: int|
                        0 <= a < self.expanded@.len() && 0 <= b < self.expanded@.len() && a != b implies self.expanded@[a]
                        != self.expanded@[b] by {
                        let a2 = if a < i { a } else { a + 1 };
                        let b2 = if b < i { b } else { b + 1 };
                        assert(before[a2] != before[b2]);
                    }
                }
                true
            },
            None => {
                assert(before.to_set() =~= before.to_set().remove(entity));
                false
            },
        }
    }

    /// Replaces the rows with a fresh walk of the live world.
    pub fn rebuild(&mut self, roots: &Vec<TreeNode>)
        requires
            forall|i: int| 0 <= i < roots@.len() ==> height(#[trigger] roots@[i]) <= usize::MAX,
        ensures
            exists|order: Seq<usize>|
                is_root_order(roots@, order) && final(self).spec_rows() == tree_rows(
                    roots@,
                    order,
                    old(self).spec_filter(),
                    old(self).spec_expanded(),
                ),
            final(self).spec_expanded() == old(self).spec_expanded(),
            final(self).spec_filter() == old(self).spec_filter(),
            final(self).spec_visible() == old(self).spec_visible(),
            final(self).spec_reveal() == old(self).spec_reveal(),
            old(self).wf() ==> final(self).wf(),
    {
        self.rows = rebuild_rows(roots, self.filter.as_str(), &self.expanded);
    }

    /// A new filter text: a new list, scrolled to its top.
    pub fn set_filter(&mut self, filter: String)
        ensures
            final(self).spec_filter() == filter@,
            final(self).spec_reveal() == Some(0usize),
            final(self).spec_rows() == old(self).spec_rows(),
            final(self).spec_expanded() == old(self).spec_expanded(),
            final(self).spec_visible() == old(self).spec_visible(),
            old(self).wf() ==> final(self).wf(),
    {
        self.filter = filter;
        self.reveal = Some(0);
    }

    /// Mirrors the scroll area's range of visible rows, and hands over the
    /// row the keyboard asked to bring into view, if any.
    pub fn sync_visible(&mut self, start: usize, end: usize) -> (reveal: Option<usize>)
        ensures
            reveal == old(self).spec_reveal(),
            final(self).spec_reveal() is None,
            final(self).spec_visible() == (start, end),
            final(self).spec_rows() == old(self).spec_rows(),
            final(self).spec_expanded() == old(self).spec_expanded(),
            final(self).spec_filter() == old(self).spec_filter(),
            old(self).wf() ==> final(self).wf(),
    {
        self.visible_start = start;
        self.visible_end = end;
        self.reveal.take()
    }

    /// The row backing pool slot `slot`, if any.
    pub fn row(&self, slot: usize) -> (row: Option<Row>)
        requires
            self.spec_visible().0 + slot <= usize::MAX,
        ensures
            row == (if self.spec_visible().0 + slot < self.spec_rows().len() {
                Some(self.spec_rows()[self.spec_visible().0 + slot])
            } else {
                None
            }),
    {
        let index = self.visible_start + slot;
        if index < self.rows.len() {
            Some(self.rows[index])
        } else {
            None
        }
    }

    /// The first row showing `entity`.
    pub fn index_of(&self, entity: Entity) -> (index: Option<usize>)
        ensures
            match index {
                Some(i) => {
                    &&& i < self.spec_rows().len()
                    &&& self.spec_rows()[i as int].entity == entity
                    &&& row_index(self.spec_rows(), entity) == Some(i as int)
                },
                None => row_index(self.spec_rows(), entity) is None,
            },
    {
        let ghost rows = self.spec_rows();
        reveal(row_index);
        let mut i: usize = 0;
        while i < self.rows.len()
            invariant
                0 <= i <= rows.len(),
                rows == self.spec_rows(),
                forall|j: int| 0 <= j < i ==> rows[j].entity != entity,
            decreases rows.len() - i,
        {
            if self.rows[i].entity == entity {
                proof {
                    reveal(row_index);
                    assert(rows[i as int].entity == entity);
                    assert(exists|k: int| 0 <= k < rows.len() && rows[k].entity == entity);
                    assert(0 <= i < rows.len() && rows[i as int].entity == entity && forall|j: int| 0 <= j < i ==> rows[j].entity != entity);
                    let c = choose|k: int| 0 <= k < rows.len() && rows[k].entity == entity && forall|j: int| 0 <= j < k ==> rows[j].entity != entity;
                    if c < i {
                    } else if c > i {
                        assert(rows[i as int].entity == entity);
                    }
                    assert(c == i);
                }
                return Some(i);
            }
            i = i + 1;
        }
        proof {
            reveal(row_index);
        }
        None
    }

    /// A click on a row's label: the entity to select.
    pub fn select_slot(&self, slot: usize) -> (selected: Option<Entity>)
        requires
            self.spec_visible().0 + slot <= usize::MAX,
        ensures
            selected == (if self.spec_visible().0 + slot < self.spec_rows().len() {
                Some(self.spec_rows()[self.spec_visible().0 + slot].entity)
            } else {
                None
            }),
    {
        match self.row(slot) {
            Some(row) => Some(row.entity),
            None => None,
        }
    }

    /// A click on a row's toggle: opens a closed row with children, closes
    /// an open one.
    pub fn toggle_slot(&mut self, slot: usize)
        requires
            old(self).wf(),
            old(self).spec_visible().0 + slot <= usize::MAX,
        ensures
            final(self).wf(),
            final(self).spec_rows() == old(self).spec_rows(),
            final(self).spec_filter() == old(self).spec_filter(),
            final(self).spec_visible() == old(self).spec_visible(),
            final(self).spec_reveal() == old(self).spec_reveal(),
            ({
                let at = old(self).spec_visible().0 + slot;
                let exp = old(self).spec_expanded();
                if at < old(self).spec_rows().len() && old(self).spec_rows()[at].has_children {
                    final(self).spec_expanded() == toggled(exp, old(self).spec_rows()[at].entity)
                } else {
                    final(self).spec_expanded() == exp
                }
            }),
    {
        if let Some(row) = self.row(slot) {
            if row.has_children {
                if !self.close_row(row.entity) {
                    self.open_row(row.entity);
                }
            }
        }
    }

    fn moved(action: TreeAction, position: Option<usize>, last: usize) -> (next: Option<usize>)
        requires
            position matches Some(at) ==> at <= last,
        ensures
            match next {
                Some(n) => moved_row(action, index_int(position), last as int) == Some(n as int),
                None => moved_row(action, index_int(position), last as int) is None,
            },
    {
        match action {
            TreeAction::SelectFirst => Some(0),
            TreeAction::SelectLast => Some(last),
            TreeAction::SelectNext => Some(
                match position {
                    Some(at) => if at < last { at + 1 } else { last },
                    None => 0,
                },
            ),
            TreeAction::SelectPrevious => Some(
                match position {
                    Some(at) => if at > 0 { at - 1 } else { 0 },
                    None => 0,
                },
            ),
            _ => None,
        }
    }

    fn parent_of(&self, at: usize) -> (parent: Option<usize>)
        requires
            at < self.spec_rows().len(),
        ensures
            match parent {
                Some(p) => p < at && parent_index(self.spec_rows(), at as int) == Some(p as int),
                None => parent_index(self.spec_rows(), at as int) is None,
            },
    {
        let ghost rows = self.spec_rows();
        reveal(parent_index);
        let depth = self.rows[at].depth;
        let mut p: usize = at;
        while p > 0 && self.rows[p - 1].depth >= depth
            invariant
                0 <= p <= at,
                at < rows.len(),
                rows == self.spec_rows(),
                depth == rows[at as int].depth,
                forall|j: int| p <= j < at ==> rows[j].depth >= depth,
            decreases p,
        {
            p = p - 1;
        }
        if p == 0 {
            return None;
        }
        proof {
            let q = (p - 1) as int;
            assert(0 <= q < at && rows[q].depth < rows[at as int].depth && forall|j: int|
                q < j < at ==> rows[j].depth >= rows[at as int].depth);
            let c = choose|i: int|
                0 <= i < at && rows[i].depth < rows[at as int].depth && forall|j: int|
                    i < j < at ==> rows[j].depth >= rows[at as int].depth;
            if c < q {
                assert(rows[q].depth >= rows[at as int].depth);
            } else if c > q {
                assert(rows[c].depth >= rows[at as int].depth);
            }
        }
        Some(p - 1)
    }

    /// What `action` does with `selected` selected, without doing it.
    pub fn plan_keyboard(&self, action: TreeAction, selected: Option<Entity>) -> (moved: TreeMove)
        requires
            self.spec_rows().len() > 0,
        ensures
            moved == tree_move(self.spec_rows(), selected, self.spec_expanded(), action),
    {
        let none = TreeMove { select: None, reveal: None, expand: None, collapse: None };
        let position = match selected {
            Some(e) => self.index_of(e),
            None => None,
        };
        assert(index_int(position) == selected_row(self.spec_rows(), selected));
        let last = self.rows.len() - 1;
        if let Some(next) = Self::moved(action, position, last) {
            return TreeMove { select: Some(self.rows[next].entity), reveal: Some(next), ..none };
        }
        let at = match position {
            Some(at) => at,
            None => {
                return none;
            },
        };
        let row = self.rows[at];
        if action == TreeAction::ExpandRow {
            if row.has_children {
                return TreeMove { expand: Some(row.entity), ..none };
            }
            return none;
        }
        if self.is_expanded(row.entity) {
            return TreeMove { collapse: Some(row.entity), ..none };
        }
        match self.parent_of(at) {
            Some(p) => {
                let parent = self.rows[p].entity;
                let reveal = self.index_of(parent);
                TreeMove { select: Some(parent), reveal, ..none }
            },
            None => none,
        }
    }

    /// Runs one keyboard action with `selected` selected, opening or closing
    /// rows as it asks and remembering the row to bring into view. Answers
    /// what the action does; the caller selects `select`.
    pub fn keyboard(&mut self, action: TreeAction, selected: Option<Entity>) -> (moved: TreeMove)
        requires
            old(self).wf(),
        ensures
            final(self).wf(),
            old(self).spec_rows().len() == 0 ==> moved == (TreeMove { select: None, reveal: None, expand: None, collapse: None })
                && final(self).spec_expanded() == old(self).spec_expanded()
                && final(self).spec_reveal() == old(self).spec_reveal(),
            old(self).spec_rows().len() > 0 ==> {
                &&& moved == tree_move(old(self).spec_rows(), selected, old(self).spec_expanded(), action)
                &&& final(self).spec_expanded() == match (moved.expand, moved.collapse) {
                    (Some(e), _) => old(self).spec_expanded().insert(e),
                    (_, Some(e)) => old(self).spec_expanded().remove(e),
                    _ => old(self).spec_expanded(),
                }
                &&& final(self).spec_reveal() == if moved.select is Some {
                    moved.reveal
                } else {
                    old(self).spec_reveal()
                }
            },
            final(self).spec_rows() == old(self).spec_rows(),
            final(self).spec_filter() == old(self).spec_filter(),
            final(self).spec_visible() == old(self).spec_visible(),
    {
        if self.rows.len() == 0 {
            return TreeMove { select: None, reveal: None, expand: None, collapse: None };
        }
        let moved = self.plan_keyboard(action, selected);
        proof {
            let m = tree_move(self.spec_rows(), selected, self.spec_expanded(), action);
            assert(m.expand is Some ==> m.collapse is None && m.select is None);
            assert(m.collapse is Some ==> m.select is None);
        }
        if moved.select.is_some() {
            self.reveal = moved.reveal;
        } else if let Some(e) = moved.expand {
            self.open_row(e);
        } else if let Some(e) = moved.collapse {
            self.close_row(e);
        }
        moved
    }

    /// Whether a pool slot's label (or, for `toggle`, its toggle) is
    /// disabled: a slot past the rows is, and so is the toggle of a row
    /// without children.
    pub fn slot_inactive(&self, slot: usize, toggle: bool) -> (inactive: bool)
        requires
            self.spec_visible().0 + slot <= usize::MAX,
        ensures
            ({
                let at = self.spec_visible().0 + slot;
                inactive == if at < self.spec_rows().len() {
                    toggle && !self.spec_rows()[at].has_children
                } else {
                    true
                }
            }),
    {
        match self.row(slot) {
            Some(row) => toggle && !row.has_children,
            None => true,
        }
    }
}

/// Depth past which rows stop indenting: a row you cannot read is worse than
/// one whose depth you have to infer from its parents.
pub const MAX_INDENT_DEPTH: usize = 6;

/// How many indentation steps a row at `depth` gets.
pub fn indent_steps(depth: usize) -> (steps: usize)
    ensures
        steps == if depth < MAX_INDENT_DEPTH { depth } else { MAX_INDENT_DEPTH },
{
    if depth < MAX_INDENT_DEPTH {
        depth
    } else {
        MAX_INDENT_DEPTH
    }
}

/// The panel's title line.
pub open spec fn spec_title_label(rows: nat) -> Seq<char> {
    "WORLD · "@ + decimal(rows) + " entities"@
}

/// The panel's title line, counting the rows.
pub fn title_label(rows: usize) -> (label: String)
    ensures
        label@ == spec_title_label(rows as nat),
{
    let count = decimal_string(rows as u64);
    let head = join("WORLD · ", count.as_str());
    join(head.as_str(), " entities")
}

/// The line under the tree: which rows are in view out of how many, or,
/// with no rows, whether a scene is still loading.
pub open spec fn spec_position_label(rows: nat, start: nat, end: nat, loading: bool) -> Seq<char> {
    if rows == 0 {
        if loading {
            "Loading…"@
        } else {
            Seq::empty()
        }
    } else {
        decimal(start + 1) + "–"@ + decimal(if end < rows { end } else { rows }) + " of "@ + decimal(rows)
    }
}

/// The line under the tree.
pub fn position_label(rows: usize, start: usize, end: usize, loading: bool) -> (label: String)
    requires
        start < u64::MAX,
    ensures
        label@ == spec_position_label(rows as nat, start as nat, end as nat, loading),
{
    if rows == 0 {
        if loading {
            String::from_str("Loading…")
        } else {
            String::new()
        }
    } else {
        let shown = if end < rows { end } else { rows };
        let first = decimal_string(start as u64 + 1);
        let a = join(first.as_str(), "–");
        let last = decimal_string(shown as u64);
        let b = join(a.as_str(), last.as_str());
        let c = join(b.as_str(), " of ");
        let total = decimal_string(rows as u64);
        join(c.as_str(), total.as_str())
    }
}

/// The toggle in front of a row: open or closed for a row with children
/// (always open while filtering), nothing otherwise.
pub open spec fn spec_toggle_label(row: Option<Row>, open: bool, filtering: bool) -> Seq<char> {
    match row {
        Some(r) => if !r.has_children {
            Seq::empty()
        } else if open || filtering {
            "▾"@
        } else {
            "▸"@
        },
        None => Seq::empty(),
    }
}

/// The toggle in front of a row.
pub fn toggle_label(row: Option<Row>, open: bool, filtering: bool) -> (label: String)
    ensures
        label@ == spec_toggle_label(row, open, filtering),
{
    match row {
        Some(r) => if !r.has_children {
            String::new()
        } else if open || filtering {
            String::from_str("▾")
        } else {
            String::from_str("▸")
        },
        None => String::new(),
    }
}

/// How many children a group row has, shown at the end of the row.
pub fn count_label(row: Option<Row>, children: usize) -> (label: String)
    ensures
        label@ == (if row matches Some(r) && r.has_children { decimal(children as nat) } else { Seq::empty() }),
{
    match row {
        Some(r) => if r.has_children {
            decimal_string(children as u64)
        } else {
            String::new()
        },
        None => String::new(),
    }
}

/// What a row is called: a scene root by the asset it came from, anything
/// else by its name, falling back to the entity's index so a nameless entity
/// is still selectable.
pub open spec fn spec_entity_label(entity: Entity, root_address: Option<Seq<char>>, name: Option<Seq<char>>) -> Seq<char> {
    match root_address {
        Some(address) => address,
        None => match name {
            Some(n) => n,
            None => "Entity "@ + decimal((entity.0 / 0x1_0000_0000) as nat),
        },
    }
}

/// What a row is called.
pub fn entity_label(entity: Entity, root_address: Option<&String>, name: Option<&String>) -> (label: String)
    ensures
        label@ == spec_entity_label(
            entity,
            match root_address { Some(a) => Some(a@), None => None },
            match name { Some(n) => Some(n@), None => None },
        ),
{
    match root_address {
        Some(address) => address.clone(),
        None => match name {
            Some(n) => n.clone(),
            None => {
                let index = decimal_string(entity.index() as u64);
                join("Entity ", index.as_str())
            },
        },
    }
}

proof fn lemma_first_row_exists(rows: Seq<Row>, e: Entity, k: int)
    requires
        0 <= k < rows.len(),
        rows[k].entity == e,
    ensures
        exists|i: int| 0 <= i < rows.len() && rows[i].entity == e && forall|j: int| 0 <= j < i ==> rows[j].entity != e,
    decreases k,
{
    if exists|j: int| 0 <= j < k && rows[j].entity == e {
        let j = choose|j: int| 0 <= j < k && rows[j].entity == e;
        lemma_first_row_exists(rows, e, j);
    } else {
        assert(0 <= k < rows.len() && rows[k].entity == e && forall|j: int| 0 <= j < k ==> rows[j].entity != e);
    }
}

proof fn lemma_row_index(rows: Seq<Row>, e: Entity)
    ensures
        row_index(rows, e) matches Some(i) ==> 0 <= i < rows.len() && rows[i].entity == e,
{
    reveal(row_index);
    if exists|i: int| 0 <= i < rows.len() && rows[i].entity == e {
        let k = choose|i: int| 0 <= i < rows.len() && rows[i].entity == e;
        lemma_first_row_exists(rows, e, k);
    }
}

/// Whatever the keyboard does, it only ever selects a row of the tree and
/// only ever asks to bring a row of the tree into view.
pub proof fn law_keyboard_stays_in_tree(rows: Seq<Row>, selected: Option<Entity>, expanded: Set<Entity>, action: TreeAction)
    requires
        rows.len() > 0,
    ensures
        tree_move(rows, selected, expanded, action).select matches Some(e) ==> exists|i: int|
            0 <= i < rows.len() && rows[i].entity == e,
        tree_move(rows, selected, expanded, action).reveal matches Some(r) ==> r < rows.len(),
{
    if let Some(e) = selected {
        lemma_row_index(rows, e);
    }
    let position = selected_row(rows, selected);
    if let Some(at) = position {
        lemma_parent_index(rows, at);
        if let Some(p) = parent_index(rows, at) {
            lemma_row_index(rows, rows[p].entity);
        }
    }
}

proof fn lemma_parent_index(rows: Seq<Row>, at: int)
    ensures
        parent_index(rows, at) matches Some(p) ==> 0 <= p < at,
{
    reveal(parent_index);
    if exists|i: int| 0 <= i < at && rows[i].depth < rows[at].depth {
        let i = choose|i: int| 0 <= i < at && rows[i].depth < rows[at].depth;
        lemma_nearest_parent_exists(rows, at, i);
    }
}

proof fn lemma_nearest_parent_exists(rows: Seq<Row>, at: int, i: int)
    requires
        0 <= i < at,
        rows[i].depth < rows[at].depth,
    ensures
        exists|p: int| 0 <= p < at && rows[p].depth < rows[at].depth && forall|j: int| p < j < at ==> rows[j].depth >= rows[at].depth,
    decreases at - i,
{
    if exists|j: int| i < j < at && rows[j].depth < rows[at].depth {
        let j = choose|j: int| i < j < at && rows[j].depth < rows[at].depth;
        lemma_nearest_parent_exists(rows, at, j);
    } else {
        assert(0 <= i < at && rows[i].depth < rows[at].depth && forall|j: int| i < j < at ==> rows[j].depth >= rows[at].depth);
    }
}

proof fn lemma_forest_filtered_keeps(nodes: Seq<TreeNode>, depth: int, filter: Seq<char>, i: int)
    requires
        0 <= i < nodes.len(),
        node_filtered(nodes[i], depth, filter).len() > 0,
    ensures
        forest_filtered(nodes, depth, filter).len() > 0,
    decreases nodes.len(),
{
    if i < nodes.len() - 1 {
        assert(nodes.drop_last()[i] == nodes[i]);
        lemma_forest_filtered_keeps(nodes.drop_last(), depth, filter, i);
    }
}

/// While filtering, a node whose name matches is shown, and so is every
/// node on the path to a shown node: a match is never orphaned from the
/// path that leads to it, and a shown node heads its own rows.
pub proof fn law_filter_keeps_paths(node: TreeNode, depth: int, filter: Seq<char>)
    ensures
        name_matches(node, filter) ==> node_filtered(node, depth, filter).len() > 0,
        forall|i: int|
            0 <= i < node.children@.len() && node_filtered(#[trigger] node.children@[i], depth + 1, filter).len() > 0
                ==> node_filtered(node, depth, filter).len() > 0,
        node_filtered(node, depth, filter).len() > 0 ==> node_filtered(node, depth, filter)[0] == own_row(node, depth),
{
    assert forall|i: int|
        0 <= i < node.children@.len() && node_filtered(#[trigger] node.children@[i], depth + 1, filter).len() > 0
            implies node_filtered(node, depth, filter).len() > 0 by {
        lemma_forest_filtered_keeps(node.children@, depth + 1, filter, i);
    }
}

impl Default for HierarchyState {
    fn default() -> (value: Self)
        ensures
            value.wf(),
            value.spec_rows() == Seq::<Row>::empty(),
            value.spec_expanded() == Set::<Entity>::empty(),
            value.spec_filter() == Seq::<char>::empty(),
            value.spec_visible() == (0usize, 0usize),
            value.spec_reveal() is None,
    {
        HierarchyState::new()
    }
}

} // verus!
