//! The inspector: which rows a component shows, what they are called, and
//! whether a queued edit may still land.
use std::collections::HashMap;
use vstd::prelude::*;
use vstd::string::StringExecFns;

use crate::entity::Entity;
use crate::property::{clone_segments, fields_of, resolve, texts, with_property, Editable, Field, PropertyPath, PathError};
use crate::tabs::{is_tab_order, tab_order};
use crate::text::{char_to_uppercase, chars_of, decimal, decimal_string, join, string_from_chars, uppercase_char};

verus! {

broadcast use vstd::std_specs::hash::group_hash_axioms;

/// Identity of one editor registration; a replacement, even of the same
/// editor, has a new one.
#[derive(Clone, Copy, Debug, PartialEq, Eq, Structural)]
pub struct EditorRegistration(pub u64);

/// Why an edit did not land. A rejected edit leaves the target unchanged;
/// type mismatches and stale registrations are reported without asking the
/// editor.
#[derive(Clone, Copy, Debug, PartialEq, Eq, Structural)]
pub enum EditError {
    Rejected,
    TypeMismatch,
    NotFound,
    StaleEditor,
    MissingTarget,
    UnregisteredComponent,
}

impl EditError {
    /// The error's name, as the editor's log writes it.
    pub fn describe(&self) -> (text: &'static str)
        ensures
            text@ == spec_error_name(*self),
    {
        proof {
            reveal_strlit("Rejected");
            reveal_strlit("TypeMismatch");
            reveal_strlit("NotFound");
            reveal_strlit("StaleEditor");
            reveal_strlit("MissingTarget");
            reveal_strlit("UnregisteredComponent");
        }
        match self {
            EditError::Rejected => "Rejected",
            EditError::TypeMismatch => "TypeMismatch",
            EditError::NotFound => "NotFound",
            EditError::StaleEditor => "StaleEditor",
            EditError::MissingTarget => "MissingTarget",
            EditError::UnregisteredComponent => "UnregisteredComponent",
        }
    }
}

pub open spec fn spec_error_name(e: EditError) -> Seq<char> {
    match e {
        EditError::Rejected => "Rejected"@,
        EditError::TypeMismatch => "TypeMismatch"@,
        EditError::NotFound => "NotFound"@,
        EditError::StaleEditor => "StaleEditor"@,
        EditError::MissingTarget => "MissingTarget"@,
        EditError::UnregisteredComponent => "UnregisteredComponent"@,
    }
}

/// A row's label: the field it edits, capitalised.
pub open spec fn spec_label_for(path: Seq<Seq<char>>) -> Seq<char> {
    let name = if path.len() == 0 { Seq::<char>::empty() } else { path.last() };
    if name.len() == 0 {
        Seq::empty()
    } else {
        uppercase_char(name[0]) + name.drop_first()
    }
}

/// A row's label: the field it edits, capitalised.
pub fn label_for(path: &PropertyPath) -> (label: String)
    ensures
        label@ == spec_label_for(path@),
{
    let name = chars_of(path.name());
    if name.len() == 0 {
        return String::new();
    }
    let mut label = char_to_uppercase(name[0]);
    let mut i: usize = 1;
    while i < name.len()
        invariant
            1 <= i <= name@.len(),
            label@ == uppercase_char(name@[0]) + name@.subrange(1, i as int),
        decreases name@.len() - i,
    {
        label.push(name[i]);
        i = i + 1;
        assert(label@ =~= uppercase_char(name@[0]) + name@.subrange(1, i as int));
    }
    assert(name@.subrange(1, name@.len() as int) =~= name@.drop_first());
    string_from_chars(&label)
}

/// The count line above the cards.
pub open spec fn spec_component_count_label(count: nat) -> Seq<char> {
    if count == 0 {
        Seq::empty()
    } else {
        "COMPONENTS  "@ + decimal(count)
    }
}

/// The count line above the cards: how many components the inspected entity
/// shows, or nothing when it shows none.
pub fn component_count_label(count: usize) -> (label: String)
    ensures
        label@ == spec_component_count_label(count as nat),
{
    if count == 0 {
        String::new()
    } else {
        let n = decimal_string(count as u64);
        join("COMPONENTS  ", n.as_str())
    }
}

/// What the panel knows of the selected entity while it is in the world.
pub struct SelectedEntity {
    pub name: Option<String>,
    pub children: usize,
    /// The scene asset it roots, if it is a scene root.
    pub root_address: Option<String>,
}

/// The panel's heading and target.
pub struct InspectorData {
    pub heading: String,
    pub entity: Option<Entity>,
    pub closable_scene: Option<Entity>,
    pub revision: Option<u64>,
}

/// The heading for an entity in the world.
pub open spec fn spec_heading(entity: Entity, name: Option<Seq<char>>, children: nat, root_address: Option<Seq<char>>) -> Seq<char> {
    let counted = " · "@ + decimal(children) + " children"@;
    let index = decimal((entity.0 / 0x1_0000_0000) as nat);
    match root_address {
        Some(address) => address + "\n\nScene root"@ + counted,
        None => match name {
            Some(n) => n + "\n\nEntity "@ + index + counted,
            None => "Entity "@ + index + counted,
        },
    }
}

/// The panel's heading and target for the current selection: nothing when
/// nothing is selected, a notice when the selected entity has left the
/// world (`facts` is `None`), the entity's name and children otherwise. Only
/// a scene root can be closed from here.
pub fn inspector_data(revision: u64, selected: Option<Entity>, facts: Option<SelectedEntity>) -> (data: InspectorData)
    ensures
        data.revision == Some(revision),
        match selected {
            None => data.heading@ == Seq::<char>::empty() && data.entity is None && data.closable_scene is None,
            Some(e) => match facts {
                None => data.heading@ == "Selection is no longer in the world."@ && data.entity is None
                    && data.closable_scene is None,
                Some(f) => {
                    &&& data.entity == Some(e)
                    &&& data.heading@ == spec_heading(
                        e,
                        match f.name { Some(n) => Some(n@), None => None },
                        f.children as nat,
                        match f.root_address { Some(a) => Some(a@), None => None },
                    )
                    &&& data.closable_scene == if f.root_address is Some { Some(e) } else { None }
                },
            },
        },
{
    let none = InspectorData { heading: String::new(), entity: None, closable_scene: None, revision: Some(revision) };
    let entity = match selected {
        None => {
            return none;
        },
        Some(e) => e,
    };
    let facts = match facts {
        None => {
            return InspectorData {
                heading: String::from_str("Selection is no longer in the world."),
                entity: None,
                closable_scene: None,
                revision: Some(revision),
            };
        },
        Some(f) => f,
    };
    let count = decimal_string(facts.children as u64);
    let a = join(" · ", count.as_str());
    let counted = join(a.as_str(), " children");
    let index = decimal_string(entity.index() as u64);
    let (heading, closable) = match &facts.root_address {
        Some(address) => {
            let h = join(address.as_str(), "\n\nScene root");
            (join(h.as_str(), counted.as_str()), Some(entity))
        },
        None => match &facts.name {
            Some(n) => {
                let h = join(n.as_str(), "\n\nEntity ");
                let h = join(h.as_str(), index.as_str());
                (join(h.as_str(), counted.as_str()), None)
            },
            None => {
                let h = join("Entity ", index.as_str());
                (join(h.as_str(), counted.as_str()), None)
            },
        },
    };
    InspectorData { heading, entity: Some(entity), closable_scene: closable, revision: Some(revision) }
}

/// The children of a node in the order a reordering request asks for: those
/// it names by where it names them, the rest after them, each group in the
/// order it stood.
pub open spec fn child_rank(order: Seq<Entity>, child: Entity) -> u64 {
    if exists|i: int| 0 <= i < order.len() && order[i] == child {
        (choose|i: int| 0 <= i < order.len() && order[i] == child && forall|j: int| 0 <= j < i ==> order[j] != child) as u64
    } else {
        u64::MAX
    }
}

/// The rank of each child.
pub open spec fn child_ranks(children: Seq<Entity>, order: Seq<Entity>) -> Seq<u64> {
    children.map_values(|c: Entity| child_rank(order, c))
}

/// The children `perm` lists, in its order.
pub open spec fn picked(children: Seq<Entity>, perm: Seq<usize>) -> Seq<Entity> {
    perm.map_values(|i: usize| children[i as int])
}

fn rank(order: &Vec<Entity>, child: Entity) -> (r: u64)
    requires
        order@.len() < u64::MAX,
    ensures
        r == child_rank(order@, child),
{
    let mut i: usize = 0;
    while i < order.len()
        invariant
            0 <= i <= order@.len(),
            order@.len() < u64::MAX,
            forall|j: int| 0 <= j < i ==> order@[j] != child,
        decreases order@.len() - i,
    {
        if order[i] == child {
            proof {
                let c = choose|k: int| 0 <= k < order@.len() && order@[k] == child && forall|j: int| 0 <= j < k ==> order@[j] != child;
                assert(0 <= i < order@.len() && order@[i as int] == child && forall|j: int| 0 <= j < i ==> order@[j] != child);
                if c < i {
                } else if c > i {
                    assert(order@[i as int] == child);
                }
            }
            return i as u64;
        }
        i = i + 1;
    }
    u64::MAX
}

/// Reorders `children` as `order` asks: by where `order` names each child,
/// unnamed children last, ties kept in their old order.
pub fn order_inspector_children(children: &Vec<Entity>, order: &Vec<Entity>) -> (ordered: Vec<Entity>)
    requires
        order@.len() < u64::MAX,
    ensures
        exists|perm: Seq<usize>|
            #[trigger] is_tab_order(child_ranks(children@, order@), perm) && ordered@ == picked(children@, perm),
{
    let mut ranks: Vec<u64> = Vec::new();
    let mut i: usize = 0;
    while i < children.len()
        invariant
            0 <= i <= children@.len(),
            order@.len() < u64::MAX,
            ranks@ == child_ranks(children@.take(i as int), order@),
        decreases children@.len() - i,
    {
        ranks.push(rank(order, children[i]));
        i = i + 1;
        assert(ranks@ =~= child_ranks(children@.take(i as int), order@));
    }
    assert(children@.take(children@.len() as int) =~= children@);
    let perm = tab_order(&ranks);
    let mut ordered: Vec<Entity> = Vec::new();
    let mut k: usize = 0;
    while k < perm.len()
        invariant
            0 <= k <= perm@.len(),
            is_tab_order(ranks@, perm@),
            ranks@.len() == children@.len(),
            ordered@ == picked(children@, perm@.take(k as int)),
        decreases perm@.len() - k,
    {
        ordered.push(children[perm[k]]);
        k = k + 1;
        assert(ordered@ =~= picked(children@, perm@.take(k as int)));
    }
    assert(perm@.take(perm@.len() as int) =~= perm@);
    assert(is_tab_order(child_ranks(children@, order@), perm@));
    ordered
}

/// An editor registered for a value type: which registration it is, which
/// editor it is, and the type of the edits it takes.
#[derive(Clone, Copy, Debug, PartialEq, Eq, Structural)]
pub struct RegisteredEditor {
    pub id: EditorRegistration,
    pub editor_type: u64,
    pub edit_type: u64,
}

/// The entry a map holds for a key, if any.
pub open spec fn entry_of<V>(entries: Map<u64, V>, key: u64) -> Option<V> {
    if entries.contains_key(key) {
        Some(entries[key])
    } else {
        None
    }
}

/// The name a type path ends on: what follows its last `::`, or the whole
/// path when it has none.
pub open spec fn short_name(path: Seq<char>) -> Seq<char> {
    if exists|i: int| separator_at(path, i) {
        let last = choose|i: int| separator_at(path, i) && forall|j: int| i < j ==> !separator_at(path, j);
        path.subrange(last + 2, path.len() as int)
    } else {
        path
    }
}

/// Whether a `::` starts at `i`.
pub open spec fn separator_at(path: Seq<char>, i: int) -> bool {
    0 <= i && i + 2 <= path.len() && path[i] == ':' && path[i + 1] == ':'
}

fn short_name_of(path: &str) -> (name: String)
    ensures
        name@ == short_name(path@),
{
    let chars = chars_of(path);
    let mut i: usize = chars.len();
    while i >= 2 && !(chars[i - 2] == ':' && chars[i - 1] == ':')
        invariant
            0 <= i <= chars@.len(),
            chars@ == path@,
            forall|j: int| i - 2 < j ==> !separator_at(path@, j),
        decreases i,
    {
        i = i - 1;
    }
    if i < 2 {
        assert forall|j: int| !separator_at(path@, j) by {}
        return string_from_chars(&chars);
    }
    proof {
        let k = (i - 2) as int;
        assert(separator_at(path@, k) && forall|j: int| k < j ==> !separator_at(path@, j));
        let c = choose|c: int| separator_at(path@, c) && forall|j: int| c < j ==> !separator_at(path@, j);
        if c < k {
        } else if c > k {
        }
        assert(c == k);
    }
    let mut rest: Vec<char> = Vec::new();
    let mut j: usize = i;
    while j < chars.len()
        invariant
            2 <= i <= j <= chars@.len(),
            rest@ == chars@.subrange(i as int, j as int),
        decreases chars@.len() - j,
    {
        rest.push(chars[j]);
        j = j + 1;
        assert(rest@ =~= chars@.subrange(i as int, j as int));
    }
    string_from_chars(&rest)
}

/// The components and property editors the inspector knows. A later
/// registration for a type replaces the earlier one; every editor
/// registration takes a new identity, so edits queued for the one it
/// replaced no longer land.
pub struct InspectorRegistry {
    components: HashMap<u64, String>,
    editors: HashMap<u64, RegisteredEditor>,
    next_id: u64,
    revision: u64,
}

impl InspectorRegistry {
    pub closed spec fn spec_components(&self) -> Map<u64, Seq<char>> {
        self.components@.map_values(|name: String| name@)
    }

    pub closed spec fn spec_editors(&self) -> Map<u64, RegisteredEditor> {
        self.editors@
    }

    pub closed spec fn spec_next_id(&self) -> u64 {
        self.next_id
    }

    pub closed spec fn spec_revision(&self) -> u64 {
        self.revision
    }

    /// Every editor identity this registry has given is below `next_id`.
    pub closed spec fn wf(&self) -> bool {
        forall|t: u64| self.editors@.contains_key(t) ==> (#[trigger] self.editors@[t]).id.0 < self.next_id
    }

    /// An empty registry whose editor registrations take identities from
    /// `first_id` up.
    fn new(first_id: u64) -> (registry: Self)
        ensures
            registry.wf(),
            registry.spec_components() == Map::<u64, Seq<char>>::empty(),
            registry.spec_editors() == Map::<u64, RegisteredEditor>::empty(),
            registry.spec_next_id() == first_id,
            registry.spec_revision() == 0,
    {
        let registry = InspectorRegistry {
            components: HashMap::new(),
            editors: HashMap::new(),
            next_id: first_id,
            revision: 0,
        };
        assert(registry.spec_components() =~= Map::<u64, Seq<char>>::empty());
        registry
    }

    /// An empty registry to take the place of `old`: its registrations take
    /// identities from where `old` stopped, so no edit built under `old`
    /// can reach an editor of the new one.
    pub fn replacing(old: &InspectorRegistry) -> (registry: Self)
        ensures
            registry.wf(),
            registry.spec_components() == Map::<u64, Seq<char>>::empty(),
            registry.spec_editors() == Map::<u64, RegisteredEditor>::empty(),
            registry.spec_next_id() == old.spec_next_id(),
            registry.spec_revision() == 0,
    {
        InspectorRegistry::new(old.next_id)
    }

    /// Moves whenever an editor is registered, so cached rows are rebuilt.
    pub fn revision(&self) -> (revision: u64)
        ensures
            revision == self.spec_revision(),
    {
        self.revision
    }

    /// Makes a component type inspectable, named by the end of its type path.
    pub fn register_component(&mut self, type_id: u64, type_path: &str)
        ensures
            final(self).spec_components() == old(self).spec_components().insert(type_id, short_name(type_path@)),
            final(self).spec_editors() == old(self).spec_editors(),
            final(self).spec_next_id() == old(self).spec_next_id(),
            final(self).spec_revision() == old(self).spec_revision(),
            old(self).wf() ==> final(self).wf(),
    {
        let name = short_name_of(type_path);
        let ghost before = self.spec_components();
        self.components.insert(type_id, name);
        assert(self.spec_components() =~= before.insert(type_id, short_name(type_path@)));
    }

    /// Registers the editor for values of `value_type`, replacing any
    /// earlier one. Answers the new registration's identity.
    pub fn register_property_editor(&mut self, value_type: u64, editor_type: u64, edit_type: u64) -> (id: EditorRegistration)
        requires
            old(self).wf(),
            old(self).spec_next_id() < u64::MAX,
            old(self).spec_revision() < u64::MAX,
        ensures
            final(self).wf(),
            id == EditorRegistration(old(self).spec_next_id()),
            final(self).spec_editors() == old(self).spec_editors().insert(
                value_type,
                RegisteredEditor { id, editor_type, edit_type },
            ),
            final(self).spec_components() == old(self).spec_components(),
            final(self).spec_next_id() == old(self).spec_next_id() + 1,
            final(self).spec_revision() == old(self).spec_revision() + 1,
    {
        let id = EditorRegistration(self.next_id);
        self.editors.insert(value_type, RegisteredEditor { id, editor_type, edit_type });
        self.next_id = self.next_id + 1;
        self.revision = self.revision + 1;
        id
    }

    /// The name of a registered component type.
    pub fn component(&self, type_id: u64) -> (name: Option<String>)
        ensures
            match name {
                Some(n) => entry_of(self.spec_components(), type_id) == Some(n@),
                None => entry_of(self.spec_components(), type_id) is None,
            },
    {
        match self.components.get(&type_id) {
            Some(name) => Some(name.clone()),
            None => None,
        }
    }

    /// The editor registered for values of `value_type`.
    pub fn editor(&self, value_type: u64) -> (editor: Option<RegisteredEditor>)
        ensures
            editor == entry_of(self.spec_editors(), value_type),
    {
        match self.editors.get(&value_type) {
            Some(editor) => Some(*editor),
            None => None,
        }
    }
}

/// One inspector row: a node with an editor, or one the inspector cannot
/// edit (no registration).
#[derive(Debug)]
pub struct Property {
    pub path: PropertyPath,
    pub type_id: u64,
    pub registration: Option<EditorRegistration>,
    pub editor_type: Option<u64>,
}

pub struct InspectorRowView {
    pub path: Seq<Seq<char>>,
    pub type_id: u64,
    pub registration: Option<EditorRegistration>,
    pub editor_type: Option<u64>,
}

impl View for Property {
    type V = InspectorRowView;

    open spec fn view(&self) -> InspectorRowView {
        InspectorRowView {
            path: self.path@,
            type_id: self.type_id,
            registration: self.registration,
            editor_type: self.editor_type,
        }
    }
}

impl Clone for Property {
    fn clone(&self) -> (copy: Self)
        ensures
            copy@ == self@,
    {
        Property {
            path: self.path.clone(),
            type_id: self.type_id,
            registration: self.registration,
            editor_type: self.editor_type,
        }
    }
}

/// The type a node is of.
pub open spec fn type_of(value: Editable) -> u64 {
    match value {
        Editable::Leaf { type_id, .. } => type_id,
        Editable::Composite { type_id, .. } => type_id,
    }
}

/// The rows a node shows at `path`: one row when its type has an editor,
/// otherwise the rows of its fields, and when those are none, one row that
/// says the node cannot be edited.
pub open spec fn inspector_rows(editors: Map<u64, RegisteredEditor>, value: Editable, path: Seq<Seq<char>>) -> Seq<InspectorRowView>
    decreases value, 1int,
{
    match entry_of(editors, type_of(value)) {
        Some(e) => seq![InspectorRowView { path, type_id: type_of(value), registration: Some(e.id), editor_type: Some(e.editor_type) }],
        None => {
            let kids = match value {
                Editable::Leaf { .. } => Seq::empty(),
                Editable::Composite { fields, .. } => field_rows(editors, fields@, path),
            };
            if kids.len() == 0 {
                seq![InspectorRowView { path, type_id: type_of(value), registration: None, editor_type: None }]
            } else {
                kids
            }
        },
    }
}

pub open spec fn field_rows(editors: Map<u64, RegisteredEditor>, fields: Seq<Field>, path: Seq<Seq<char>>) -> Seq<InspectorRowView>
    decreases fields, 0int,
{
    if fields.len() == 0 {
        Seq::empty()
    } else {
        field_rows(editors, fields.drop_last(), path) + inspector_rows(editors, fields.last().value, path.push(fields.last().name@))
    }
}

fn rows_into(registry: &InspectorRegistry, value: &Editable, path: &mut Vec<String>, rows: &mut Vec<Property>)
    ensures
        texts(final(path)@) == texts(old(path)@),
        final(rows)@.map_values(|p: Property| p@) == old(rows)@.map_values(|p: Property| p@) + inspector_rows(
            registry.spec_editors(),
            *value,
            texts(old(path)@),
        ),
    decreases value,
{
    let ghost prefix = texts(path@);
    let ghost start = rows@.map_values(|p: Property| p@);
    let type_id = match value {
        Editable::Leaf { type_id, .. } => *type_id,
        Editable::Composite { type_id, .. } => *type_id,
    };
    if let Some(editor) = registry.editor(type_id) {
        let segments = clone_segments(path);
        rows.push(Property {
            path: PropertyPath::new(segments),
            type_id,
            registration: Some(editor.id),
            editor_type: Some(editor.editor_type),
        });
        assert(rows@.map_values(|p: Property| p@) =~= start + inspector_rows(registry.spec_editors(), *value, prefix));
        return;
    }
    let count = rows.len();
    match fields_of(value) {
        None => {},
        Some(fields) => {
            let mut i: usize = 0;
            while i < fields.len()
                invariant
                    0 <= i <= fields@.len(),
                    fields@ == value.spec_fields(),
                    value is Composite,
                    texts(path@) == prefix,
                    count == start.len(),
                    rows@.map_values(|p: Property| p@) == start + field_rows(registry.spec_editors(), fields@.take(i as int), prefix),
                decreases fields@.len() - i,
            {
                let field = &fields[i];
                proof {
                    assert(fields@.take(i + 1).drop_last() =~= fields@.take(i as int));
                    assert(fields@.take(i + 1).last() == fields@[i as int]);
                }
                let ghost path_before = path@;
                path.push(field.name.clone());
                assert(texts(path@) =~= prefix.push(field.name@));
                rows_into(registry, &field.value, path, rows);
                let ghost pushed = path@;
                path.pop();
                assert(texts(path@) =~= texts(pushed).drop_last());
                i = i + 1;
                assert(rows@.map_values(|p: Property| p@) =~= start + field_rows(registry.spec_editors(), fields@.take(i as int), prefix));
            }
            assert(fields@.take(fields@.len() as int) =~= fields@);
        },
    }
    if rows.len() == count {
        let segments = clone_segments(path);
        rows.push(Property { path: PropertyPath::new(segments), type_id, registration: None, editor_type: None });
    }
    assert(rows@.map_values(|p: Property| p@) =~= start + inspector_rows(registry.spec_editors(), *value, prefix));
}

impl InspectorRegistry {
    /// The rows a value shows, preferring an editor for each node over its
    /// fields; a node with neither an editor nor editable fields shows one
    /// row that says so.
    pub fn collect(&self, root: &Editable) -> (rows: Vec<Property>)
        ensures
            rows@.map_values(|p: Property| p@) == inspector_rows(self.spec_editors(), *root, Seq::empty()),
            self.wf() ==> forall|i: int|
                0 <= i < rows@.len() ==> ((#[trigger] rows@[i]).registration matches Some(r) ==> r.0
                    < self.spec_next_id()),
    {
        let mut path: Vec<String> = Vec::new();
        let mut rows: Vec<Property> = Vec::new();
        assert(texts(path@) =~= Seq::<Seq<char>>::empty());
        rows_into(self, root, &mut path, &mut rows);
        assert(rows@.map_values(|p: Property| p@) =~= inspector_rows(self.spec_editors(), *root, Seq::empty()));
        proof {
            if self.wf() {
                lemma_rows_registered(self.spec_editors(), *root, Seq::empty(), self.spec_next_id());
                assert forall|i: int| 0 <= i < rows@.len() implies ((#[trigger] rows@[i]).registration matches Some(r) ==> r.0
                    < self.spec_next_id()) by {
                    assert(rows@.map_values(|p: Property| p@)[i] == rows@[i]@);
                }
            }
        }
        rows
    }
}

impl InspectorRegistry {
    /// The rows of a registered component, `component` being the entity's
    /// component of type `type_id` if it has one: `None` when the type is
    /// not registered or the entity lacks the component.
    pub fn collect_component(&self, component: Option<&Editable>, type_id: u64) -> (rows: Option<Vec<Property>>)
        ensures
            match rows {
                Some(r) => {
                    &&& entry_of(self.spec_components(), type_id) is Some
                    &&& component matches Some(c)
                    &&& r@.map_values(|p: Property| p@) == inspector_rows(self.spec_editors(), *c, Seq::empty())
                },
                None => entry_of(self.spec_components(), type_id) is None || component is None,
            },
    {
        if self.component(type_id).is_none() {
            return None;
        }
        match component {
            Some(c) => Some(self.collect(c)),
            None => None,
        }
    }
}

proof fn lemma_rows_registered(editors: Map<u64, RegisteredEditor>, value: Editable, path: Seq<Seq<char>>, next: u64)
    requires
        forall|t: u64| editors.contains_key(t) ==> (#[trigger] editors[t]).id.0 < next,
    ensures
        forall|k: int|
            0 <= k < inspector_rows(editors, value, path).len() ==> ((#[trigger] inspector_rows(editors, value, path)[k]).registration
                matches Some(r) ==> r.0 < next),
    decreases value, 1int,
{
    match entry_of(editors, type_of(value)) {
        Some(e) => {
            assert(editors[type_of(value)].id.0 < next);
        },
        None => match value {
            Editable::Leaf { .. } => {},
            Editable::Composite { fields, .. } => {
                lemma_field_rows_registered(editors, fields@, path, next);
            },
        },
    }
}

proof fn lemma_field_rows_registered(editors: Map<u64, RegisteredEditor>, fields: Seq<Field>, path: Seq<Seq<char>>, next: u64)
    requires
        forall|t: u64| editors.contains_key(t) ==> (#[trigger] editors[t]).id.0 < next,
    ensures
        forall|k: int|
            0 <= k < field_rows(editors, fields, path).len() ==> ((#[trigger] field_rows(editors, fields, path)[k]).registration
                matches Some(r) ==> r.0 < next),
    decreases fields, 0int,
{
    if fields.len() > 0 {
        lemma_field_rows_registered(editors, fields.drop_last(), path, next);
        lemma_rows_registered(editors, fields.last().value, path.push(fields.last().name@), next);
        let front = field_rows(editors, fields.drop_last(), path);
        let back = inspector_rows(editors, fields.last().value, path.push(fields.last().name@));
        assert forall|k: int| 0 <= k < field_rows(editors, fields, path).len() implies ((#[trigger] field_rows(
            editors,
            fields,
            path,
        )[k]).registration matches Some(r) ==> r.0 < next) by {
            if k < front.len() {
                assert(field_rows(editors, fields, path)[k] == front[k]);
            } else {
                assert(field_rows(editors, fields, path)[k] == back[k - front.len()]);
            }
        }
    }
}

impl Property {
    pub fn registration(&self) -> (registration: Option<EditorRegistration>)
        ensures
            registration == self.registration,
    {
        self.registration
    }

    /// The row this property becomes on component `component` of `entity`.
    pub fn row(&self, entity: Entity, component: u64) -> (row: PropertyRow)
        ensures
            row.entity == entity,
            row.component == component,
            row.path@ == self.path@,
            row.type_id == self.type_id,
            row.registration == self.registration,
            row.editor_type == self.editor_type,
    {
        PropertyRow {
            entity,
            component,
            path: self.path.clone(),
            type_id: self.type_id,
            registration: self.registration,
            editor_type: self.editor_type,
        }
    }
}

/// A row captured when it was built, so a queued edit always addresses its
/// original target.
#[derive(Debug)]
pub struct PropertyRow {
    pub entity: Entity,
    pub component: u64,
    pub path: PropertyPath,
    pub type_id: u64,
    pub registration: Option<EditorRegistration>,
    pub editor_type: Option<u64>,
}

impl PropertyRow {
    pub fn registration(&self) -> (registration: Option<EditorRegistration>)
        ensures
            registration == self.registration,
    {
        self.registration
    }
}

/// An edit and the row it was made on. Built through [`PropertyCommit::new`].
#[derive(Debug)]
pub struct PropertyCommit {
    pub row: PropertyRow,
    /// The type of the edit's payload.
    pub edit_type: u64,
}

impl PropertyCommit {
    /// Queues an edit of type `edit_type` made by editor `editor_type` on a
    /// value of type `value_type`: refused when the row is of another type
    /// or was built by another editor, and when the row has no editor.
    pub fn new(row: PropertyRow, value_type: u64, editor_type: u64, edit_type: u64) -> (commit: Result<Self, EditError>)
        ensures
            (row.type_id != value_type || row.editor_type != Some(editor_type)) ==> commit == Err::<Self, EditError>(
                EditError::TypeMismatch,
            ),
            (row.type_id == value_type && row.editor_type == Some(editor_type) && row.registration is None) ==> commit
                == Err::<Self, EditError>(EditError::StaleEditor),
            (row.type_id == value_type && row.editor_type == Some(editor_type) && row.registration is Some) ==> (commit
                matches Ok(c) && c.row == row && c.edit_type == edit_type),
    {
        if row.type_id != value_type || row.editor_type != Some(editor_type) {
            return Err(EditError::TypeMismatch);
        }
        if row.registration.is_none() {
            return Err(EditError::StaleEditor);
        }
        Ok(PropertyCommit { row, edit_type })
    }
}

/// Why a commit cannot land with the registry as it stands, if it cannot:
/// its component type is not registered, or its value type has no editor,
/// or another registration has replaced the one that built its row.
pub open spec fn commit_check(registry: InspectorRegistry, row: PropertyRow) -> Result<RegisteredEditor, EditError> {
    if entry_of(registry.spec_components(), row.component) is None {
        Err(EditError::UnregisteredComponent)
    } else {
        match entry_of(registry.spec_editors(), row.type_id) {
            None => Err(EditError::StaleEditor),
            Some(e) => if row.registration != Some(e.id) || row.editor_type != Some(e.editor_type) {
                Err(EditError::StaleEditor)
            } else {
                Ok(e)
            },
        }
    }
}

/// Where a commit lands in its component, `component` being the target
/// entity's component if it still has one: the value at the row's path,
/// which must be of the row's type and take edits of the commit's type.
/// Answers the value's slot (`None` for a composite), for its editor to
/// validate and apply the edit.
pub open spec fn commit_target(registry: InspectorRegistry, commit: PropertyCommit, component: Option<Editable>) -> Result<Option<u64>, EditError> {
    match commit_check(registry, commit.row) {
        Err(e) => Err(e),
        Ok(editor) => match component {
            None => Err(EditError::MissingTarget),
            Some(root) => match resolve(root, commit.row.path@) {
                None => Err(EditError::NotFound),
                Some(value) => if type_of(value) != commit.row.type_id || commit.edit_type != editor.edit_type {
                    Err(EditError::TypeMismatch)
                } else {
                    Ok(match value {
                        Editable::Leaf { slot, .. } => Some(slot),
                        Editable::Composite { .. } => None,
                    })
                },
            },
        },
    }
}

/// Checks a queued edit against the registry and the live component before
/// anything is changed; see [`commit_target`].
pub fn apply_property_commit(registry: &InspectorRegistry, commit: &PropertyCommit, component: Option<&Editable>) -> (target: Result<Option<u64>, EditError>)
    ensures
        target == commit_target(*registry, *commit, match component { Some(c) => Some(*c), None => None }),
{
    let row = &commit.row;
    if registry.component(row.component).is_none() {
        return Err(EditError::UnregisteredComponent);
    }
    let editor = match registry.editor(row.type_id) {
        Some(e) => e,
        None => {
            return Err(EditError::StaleEditor);
        },
    };
    if row.registration != Some(editor.id) || row.editor_type != Some(editor.editor_type) {
        return Err(EditError::StaleEditor);
    }
    let root = match component {
        Some(c) => c,
        None => {
            return Err(EditError::MissingTarget);
        },
    };
    let value = match with_property(root, &row.path) {
        Ok(v) => v,
        Err(_) => {
            return Err(EditError::NotFound);
        },
    };
    let (type_id, slot) = match value {
        Editable::Leaf { type_id, slot } => (*type_id, Some(*slot)),
        Editable::Composite { type_id, .. } => (*type_id, None),
    };
    if type_id != row.type_id || commit.edit_type != editor.edit_type {
        return Err(EditError::TypeMismatch);
    }
    Ok(slot)
}

/// The live component of type `type_id` on `entity`, as the world holds
/// its components: the first entry for that entity and type.
pub open spec fn live_component(world: Seq<(Entity, u64, Editable)>, entity: Entity, type_id: u64) -> Option<Editable>
    decreases world.len(),
{
    if world.len() == 0 {
        None
    } else if world[0].0 == entity && world[0].1 == type_id {
        Some(world[0].2)
    } else {
        live_component(world.drop_first(), entity, type_id)
    }
}

/// Finds the live component of type `type_id` on `entity`.
fn find_component(world: &Vec<(Entity, u64, Editable)>, entity: Entity, type_id: u64) -> (found: Option<&Editable>)
    ensures
        match found {
            Some(c) => live_component(world@, entity, type_id) == Some(*c),
            None => live_component(world@, entity, type_id) is None,
        },
{
    let mut k: usize = 0;
    assert(world@.skip(0) =~= world@);
    while k < world.len()
        invariant
            0 <= k <= world@.len(),
            live_component(world@, entity, type_id) == live_component(world@.skip(k as int), entity, type_id),
        decreases world@.len() - k,
    {
        assert(world@.skip(k as int).drop_first() =~= world@.skip(k + 1));
        assert(world@.skip(k as int)[0] == world@[k as int]);
        if world[k].0 == entity && world[k].1 == type_id {
            return Some(&world[k].2);
        }
        k = k + 1;
    }
    None
}

/// Drains the queue of edits, checking each against the registry and the
/// component its row was built on as the world holds it now, in the order
/// they were queued. Answers, for each edit, where it lands or why it was
/// dropped; which entity is selected, or which widgets stand, plays no part.
pub fn apply_property_commits(
    registry: &InspectorRegistry,
    commits: &mut Vec<PropertyCommit>,
    world: &Vec<(Entity, u64, Editable)>,
) -> (targets: Vec<Result<Option<u64>, EditError>>)
    ensures
        final(commits)@.len() == 0,
        targets@.len() == old(commits)@.len(),
        forall|i: int|
            0 <= i < targets@.len() ==> #[trigger] targets@[i] == commit_target(
                *registry,
                old(commits)@[i],
                live_component(world@, old(commits)@[i].row.entity, old(commits)@[i].row.component),
            ),
{
    let mut queued: Vec<PropertyCommit> = Vec::new();
    std::mem::swap(commits, &mut queued);
    let mut targets: Vec<Result<Option<u64>, EditError>> = Vec::new();
    let mut i: usize = 0;
    while i < queued.len()
        invariant
            0 <= i <= queued@.len(),
            targets@.len() == i,
            forall|j: int|
                0 <= j < i ==> #[trigger] targets@[j] == commit_target(
                    *registry,
                    queued@[j],
                    live_component(world@, queued@[j].row.entity, queued@[j].row.component),
                ),
        decreases queued@.len() - i,
    {
        let commit = &queued[i];
        let component = find_component(world, commit.row.entity, commit.row.component);
        let target = apply_property_commit(registry, commit, component);
        targets.push(target);
        i = i + 1;
    }
    targets
}

/// A registry whose editors all took identities from `bound` on (as every
/// registry made by [`InspectorRegistry::replacing`] an older one does,
/// `bound` being where the older one stopped) turns away every edit queued
/// on a row the older registry built.
pub proof fn law_replacing_the_registry_invalidates_old_rows(after: InspectorRegistry, row: PropertyRow, bound: u64)
    requires
        forall|t: u64| after.spec_editors().contains_key(t) ==> (#[trigger] after.spec_editors()[t]).id.0 >= bound,
        row.registration matches Some(r) && r.0 < bound,
    ensures
        commit_check(after, row) is Err,
{
    if let Some(e) = entry_of(after.spec_editors(), row.type_id) {
        assert(after.spec_editors()[row.type_id].id.0 >= bound);
    }
}

/// Registering an editor for a value type, even the same editor again,
/// turns away every edit queued on a row an earlier registration built: no
/// stale edit can reach the new editor. A row built under the new
/// registration reaches it.
pub proof fn law_replacing_an_editor_invalidates_old_rows(
    before: InspectorRegistry,
    after: InspectorRegistry,
    row: PropertyRow,
    fresh: PropertyRow,
    editor_type: u64,
    edit_type: u64,
)
    requires
        after.spec_components() == before.spec_components(),
        after.spec_editors() == before.spec_editors().insert(
            row.type_id,
            RegisteredEditor { id: EditorRegistration(before.spec_next_id()), editor_type, edit_type },
        ),
        row.registration matches Some(r) && r.0 < before.spec_next_id(),
    ensures
        commit_check(after, row) is Err,
        entry_of(after.spec_components(), row.component) is Some ==> commit_check(after, row) == Err::<
            RegisteredEditor,
            EditError,
        >(EditError::StaleEditor),
        ({
            let editor = RegisteredEditor { id: EditorRegistration(before.spec_next_id()), editor_type, edit_type };
            (entry_of(after.spec_components(), fresh.component) is Some && fresh.type_id == row.type_id
                && fresh.registration == Some(editor.id) && fresh.editor_type == Some(editor_type)) ==> commit_check(
                after,
                fresh,
            ) == Ok::<RegisteredEditor, EditError>(editor)
        }),
{
}

/// What an editor captured of a row's value when the row was refreshed:
/// the value's type, the editor's type, and the captured value itself.
#[derive(Clone, Copy, Debug, PartialEq, Eq, Structural)]
pub struct Snapshot {
    pub value_type: u64,
    pub editor_type: u64,
    pub data: u64,
}

/// Owned snapshot refreshed independently of the widget's focused edit
/// buffer. Unsupported rows have no snapshot.
#[derive(Clone, Copy, Debug, PartialEq, Eq, Structural)]
pub struct PropertyRowValue(pub Option<Snapshot>);

/// What editor `editor_type` of `value_type` reads from a row value.
pub open spec fn snapshot_for(value: PropertyRowValue, value_type: u64, editor_type: u64) -> Option<u64> {
    match value.0 {
        Some(s) => if s.value_type == value_type && s.editor_type == editor_type {
            Some(s.data)
        } else {
            None
        },
        None => None,
    }
}

/// A snapshot reads back as what its editor captured, and as nothing to any
/// other editor or value type.
pub proof fn law_snapshot_reads_back(value_type: u64, editor_type: u64, data: u64, other_value: u64, other_editor: u64)
    ensures
        snapshot_for(PropertyRowValue(Some(Snapshot { value_type, editor_type, data })), value_type, editor_type)
            == Some(data),
        (other_value != value_type || other_editor != editor_type) ==> snapshot_for(
            PropertyRowValue(Some(Snapshot { value_type, editor_type, data })),
            other_value,
            other_editor,
        ) is None,
{
}

impl PropertyRowValue {
    /// What editor `editor_type` captured for a value of `value_type`.
    pub fn new(value_type: u64, editor_type: u64, data: u64) -> (value: Self)
        ensures
            value.0 == Some(Snapshot { value_type, editor_type, data }),
    {
        PropertyRowValue(Some(Snapshot { value_type, editor_type, data }))
    }

    /// The captured value, read as editor `editor_type` of `value_type` reads
    /// it: `None` for an unsupported row or a different value or editor type.
    pub fn snapshot(&self, value_type: u64, editor_type: u64) -> (data: Option<u64>)
        ensures
            data == snapshot_for(*self, value_type, editor_type),
    {
        match self.0 {
            Some(s) => {
                if s.value_type == value_type && s.editor_type == editor_type {
                    Some(s.data)
                } else {
                    None
                }
            },
            None => None,
        }
    }

    /// The captured value as the snapshot type of editor `editor_type`
    /// reads it, whatever value type it was taken for: `None` for an
    /// unsupported row or a snapshot another editor took.
    pub fn downcast(&self, editor_type: u64) -> (data: Option<u64>)
        ensures
            data == match self.0 {
                Some(s) => if s.editor_type == editor_type { Some(s.data) } else { None },
                None => None,
            },
    {
        match self.0 {
            Some(s) => {
                if s.editor_type == editor_type {
                    Some(s.data)
                } else {
                    None
                }
            },
            None => None,
        }
    }
}

impl Default for InspectorRegistry {
    /// An empty registry whose identities start at 0.
    fn default() -> (registry: Self)
        ensures
            registry.wf(),
            registry.spec_components() == Map::<u64, Seq<char>>::empty(),
            registry.spec_editors() == Map::<u64, RegisteredEditor>::empty(),
            registry.spec_next_id() == 0,
            registry.spec_revision() == 0,
    {
        InspectorRegistry::new(0)
    }
}

impl Default for PropertyRowValue {
    fn default() -> (value: Self)
        ensures
            value.0 is None,
    {
        PropertyRowValue(None)
    }
}

/// The inspector data revision the details view last showed.
pub struct InspectorScroll {
    revision: Option<u64>,
}

impl InspectorScroll {
    pub closed spec fn spec_revision(&self) -> Option<u64> {
        self.revision
    }

    /// Nothing shown yet.
    pub fn new() -> (scroll: Self)
        ensures
            scroll.spec_revision() is None,
    {
        InspectorScroll { revision: None }
    }

    /// Records that the details view now shows data of `revision`. Answers
    /// whether the view goes back to the top: it does whenever the data
    /// changed since the view last showed it.
    pub fn sync(&mut self, revision: u64) -> (to_top: bool)
        ensures
            to_top == (old(self).spec_revision() != Some(revision)),
            final(self).spec_revision() == Some(revision),
    {
        let to_top = match self.revision {
            Some(shown) => shown != revision,
            None => true,
        };
        self.revision = Some(revision);
        to_top
    }
}

impl Default for InspectorScroll {
    fn default() -> (scroll: Self)
        ensures
            scroll.spec_revision() is None,
    {
        InspectorScroll::new()
    }
}

} // verus!
