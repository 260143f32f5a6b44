//! Structural access to an editable value: paths of field names, and what a
//! path reaches inside a value.
//!
//! An editable value is described by its shape: a leaf the inspector can
//! read and write, or a composite that visits named fields in declaration
//! order. Values with nothing to visit are composites without fields.
use vstd::prelude::*;
use vstd::std_specs::cmp::PartialEqSpecImpl;

use crate::inspector_sync::same_path;
use crate::text::same_text;

verus! {

/// The texts of some strings.
pub open spec fn texts(v: Seq<String>) -> Seq<Seq<char>> {
    v.map_values(|s: String| s@)
}

proof fn lemma_texts_push(v: Seq<String>, x: String)
    ensures
        texts(v.push(x)) == texts(v).push(x@),
{
    assert(texts(v.push(x)) =~= texts(v).push(x@));
}

proof fn lemma_texts_drop_last(v: Seq<String>)
    requires
        v.len() > 0,
    ensures
        texts(v.drop_last()) == texts(v).drop_last(),
{
    assert(texts(v.drop_last()) =~= texts(v).drop_last());
}

/// A path of field names from a root value down to a nested one. The empty
/// path names the root itself.
#[derive(Debug)]
pub struct PropertyPath(Vec<String>);

impl View for PropertyPath {
    type V = Seq<Seq<char>>;

    closed spec fn view(&self) -> Seq<Seq<char>> {
        texts(self.0@)
    }
}

impl Clone for PropertyPath {
    fn clone(&self) -> (copy: Self)
        ensures
            copy@ == self@,
    {
        let mut segments: Vec<String> = Vec::new();
        let mut i: usize = 0;
        while i < self.0.len()
            invariant
                0 <= i <= self.0@.len(),
                texts(segments@) == self@.take(i as int),
            decreases self.0@.len() - i,
        {
            let ghost before = segments@;
            segments.push(self.0[i].clone());
            proof {
                lemma_texts_push(before, self.0[i as int]);
            }
            i = i + 1;
            assert(texts(segments@) =~= self@.take(i as int));
        }
        assert(self@.take(self.0@.len() as int) =~= self@);
        PropertyPath(segments)
    }
}

impl PartialEq for PropertyPath {
    /// Two paths are equal when they name the same fields, segment by
    /// segment.
    fn eq(&self, other: &Self) -> (same: bool) {
        same_path(self, other)
    }
}

impl PartialEqSpecImpl for PropertyPath {
    open spec fn obeys_eq_spec() -> bool {
        true
    }

    open spec fn eq_spec(&self, other: &Self) -> bool {
        self@ == other@
    }
}

impl Default for PropertyPath {
    fn default() -> (path: Self)
        ensures
            path@ == Seq::<Seq<char>>::empty(),
    {
        let path = PropertyPath(Vec::new());
        assert(path@ =~= Seq::<Seq<char>>::empty());
        path
    }
}

impl PropertyPath {
    pub fn new(segments: Vec<String>) -> (path: Self)
        ensures
            path@ == texts(segments@),
    {
        PropertyPath(segments)
    }

    pub fn segments(&self) -> (segments: &Vec<String>)
        ensures
            texts(segments@) == self@,
    {
        &self.0
    }

    /// The last segment: the field the path ends on, or `""` for the root.
    pub fn name(&self) -> (name: &str)
        ensures
            name@ == if self@.len() == 0 { Seq::<char>::empty() } else { self@.last() },
    {
        if self.0.len() == 0 {
            proof {
                reveal_strlit("");
            }
            ""
        } else {
            self.0[self.0.len() - 1].as_str()
        }
    }

    pub fn depth(&self) -> (depth: usize)
        ensures
            depth == self@.len(),
    {
        self.0.len()
    }

    /// The segment at `index`, if the path is that deep.
    pub fn get_depth(&self, index: usize) -> (segment: Option<&str>)
        ensures
            match segment {
                Some(s) => index < self@.len() && s@ == self@[index as int],
                None => index >= self@.len(),
            },
    {
        if index < self.0.len() {
            Some(self.0[index].as_str())
        } else {
            None
        }
    }
}

/// The shape of an editable value.
#[derive(Debug)]
pub enum Editable {
    /// A value the inspector reads and writes whole. `type_id` names its
    /// type; `slot` is where its owner keeps it.
    Leaf { type_id: u64, slot: u64 },
    /// A value that visits its named fields in declaration order.
    Composite { type_id: u64, fields: Vec<Field> },
}

/// One named field of a composite value.
#[derive(Debug)]
pub struct Field {
    pub name: String,
    pub value: Editable,
}

impl Editable {
    pub open spec fn spec_fields(self) -> Seq<Field> {
        match self {
            Editable::Leaf { .. } => Seq::empty(),
            Editable::Composite { fields, .. } => fields@,
        }
    }
}

/// A path did not lead to a value.
#[derive(Debug, Clone, Copy, PartialEq, Eq, Structural)]
pub enum PathError {
    NotFound,
}

/// An edit did not land.
#[derive(Debug, Clone, Copy, PartialEq, Eq, Structural)]
pub enum ApplyError {
    /// The path does not end on a leaf.
    NotFound,
    /// The leaf refused the value; it is unchanged.
    Rejected,
}

/// The first of `fields` named `name`.
pub open spec fn field_named(fields: Seq<Field>, name: Seq<char>) -> Option<int> {
    if exists|i: int| 0 <= i < fields.len() && fields[i].name@ == name {
        Some(
            choose|i: int|
                0 <= i < fields.len() && fields[i].name@ == name && forall|j: int| 0 <= j < i ==> fields[j].name@ != name,
        )
    } else {
        None
    }
}

/// What `path` reaches from `value`: each segment steps into the first
/// field of that name; a value without such a field ends the walk.
pub open spec fn resolve(value: Editable, path: Seq<Seq<char>>) -> Option<Editable>
    decreases path.len(),
{
    if path.len() == 0 {
        Some(value)
    } else {
        match field_named(value.spec_fields(), path[0]) {
            Some(i) => resolve(value.spec_fields()[i].value, path.drop_first()),
            None => None,
        }
    }
}

proof fn lemma_field_named_first(fields: Seq<Field>, name: Seq<char>, k: int)
    requires
        0 <= k < fields.len(),
        fields[k].name@ == name,
    ensures
        exists|i: int| 0 <= i < fields.len() && fields[i].name@ == name && forall|j: int| 0 <= j < i ==> fields[j].name@ != name,
    decreases k,
{
    if exists|j: int| 0 <= j < k && fields[j].name@ == name {
        let j = choose|j: int| 0 <= j < k && fields[j].name@ == name;
        lemma_field_named_first(fields, name, j);
    } else {
        assert(0 <= k < fields.len() && fields[k].name@ == name && forall|j: int| 0 <= j < k ==> fields[j].name@ != name);
    }
}

fn find_field(fields: &Vec<Field>, name: &str) -> (found: Option<usize>)
    ensures
        match found {
            Some(i) => i < fields@.len() && field_named(fields@, name@) == Some(i as int),
            None => field_named(fields@, name@) is None,
        },
{
    let mut i: usize = 0;
    while i < fields.len()
        invariant
            0 <= i <= fields@.len(),
            forall|j: int| 0 <= j < i ==> fields@[j].name@ != name@,
        decreases fields@.len() - i,
    {
        if same_text(fields[i].name.as_str(), name) {
            proof {
                let c = choose|k: int|
                    0 <= k < fields@.len() && fields@[k].name@ == name@ && forall|j: int| 0 <= j < k ==> fields@[j].name@ != name@;
                assert(0 <= i < fields@.len() && fields@[i as int].name@ == name@ && forall|j: int| 0 <= j < i ==> fields@[j].name@ != name@);
                if c < i {
                } else if c > i {
                    assert(fields@[i as int].name@ == name@);
                }
            }
            return Some(i);
        }
        i = i + 1;
    }
    None
}

pub(crate) fn fields_of(value: &Editable) -> (fields: Option<&Vec<Field>>)
    ensures
        match fields {
            Some(f) => value is Composite && f@ == value.spec_fields(),
            None => value is Leaf,
        },
{
    match value {
        Editable::Leaf { .. } => None,
        Editable::Composite { fields, .. } => Some(fields),
    }
}

/// The value `path` names inside `root`: the root for the empty path, a
/// nested field otherwise. A path through a leaf, or naming a field that is
/// not there, is not found.
pub fn with_property<'a>(root: &'a Editable, path: &PropertyPath) -> (found: Result<&'a Editable, PathError>)
    ensures
        match found {
            Ok(v) => resolve(*root, path@) == Some(*v),
            Err(_) => resolve(*root, path@) is None,
        },
{
    let segments = path.segments();
    let ghost p = path@;
    let mut current = root;
    let mut d: usize = 0;
    assert(p.skip(0) =~= p);
    while d < segments.len()
        invariant
            0 <= d <= segments@.len(),
            texts(segments@) == p,
            p == path@,
            resolve(*root, p) == resolve(*current, p.skip(d as int)),
        decreases segments@.len() - d,
    {
        let ghost q = p.skip(d as int);
        assert(q.len() > 0);
        assert(q[0] == segments@[d as int]@);
        assert(q.drop_first() =~= p.skip(d + 1));
        let fields = match fields_of(current) {
            Some(f) => f,
            None => {
                assert(field_named(current.spec_fields(), q[0]) is None);
                assert(resolve(*current, q) is None);
                return Err(PathError::NotFound);
            },
        };
        match find_field(fields, segments[d].as_str()) {
            Some(i) => {
                assert(resolve(*current, q) == resolve(fields@[i as int].value, q.drop_first()));
                current = &fields[i].value;
            },
            None => {
                assert(resolve(*current, q) is None);
                return Err(PathError::NotFound);
            },
        }
        d = d + 1;
    }
    assert(p.skip(d as int) =~= Seq::<Seq<char>>::empty());
    Ok(current)
}

/// One leaf an editable value holds: where it is, what it is, where its
/// owner keeps it.
#[derive(Debug)]
pub struct Property {
    pub path: PropertyPath,
    pub type_id: u64,
    pub slot: u64,
}

/// A leaf as a collected property sees it.
pub struct PropertyView {
    pub path: Seq<Seq<char>>,
    pub type_id: u64,
    pub slot: u64,
}

impl View for Property {
    type V = PropertyView;

    open spec fn view(&self) -> PropertyView {
        PropertyView { path: self.path@, type_id: self.type_id, slot: self.slot }
    }
}

/// The leaves below `value`, whose own path is `prefix`, in field order,
/// each with its full path. The value itself is not one of them.
pub open spec fn collected(value: Editable, prefix: Seq<Seq<char>>) -> Seq<PropertyView>
    decreases value, 1int,
{
    match value {
        Editable::Leaf { .. } => Seq::empty(),
        Editable::Composite { fields, .. } => collected_fields(fields@, prefix),
    }
}

pub open spec fn collected_fields(fields: Seq<Field>, prefix: Seq<Seq<char>>) -> Seq<PropertyView>
    decreases fields, 0int,
{
    if fields.len() == 0 {
        Seq::empty()
    } else {
        let f = fields.last();
        let path = prefix.push(f.name@);
        collected_fields(fields.drop_last(), prefix) + match f.value {
            Editable::Leaf { type_id, slot } => seq![PropertyView { path, type_id, slot }],
            Editable::Composite { .. } => collected(f.value, path),
        }
    }
}

pub(crate) fn clone_segments(segments: &Vec<String>) -> (copy: Vec<String>)
    ensures
        texts(copy@) == texts(segments@),
{
    let mut copy: Vec<String> = Vec::new();
    let mut i: usize = 0;
    while i < segments.len()
        invariant
            0 <= i <= segments@.len(),
            texts(copy@) == texts(segments@).take(i as int),
        decreases segments@.len() - i,
    {
        let ghost before = copy@;
        copy.push(segments[i].clone());
        proof {
            lemma_texts_push(before, segments@[i as int]);
        }
        i = i + 1;
        assert(texts(copy@) =~= texts(segments@).take(i as int));
    }
    assert(texts(segments@).take(segments@.len() as int) =~= texts(segments@));
    copy
}

fn collect_into(value: &Editable, path: &mut Vec<String>, properties: &mut Vec<Property>)
    ensures
        texts(final(path)@) == texts(old(path)@),
        final(properties)@.map_values(|p: Property| p@) == old(properties)@.map_values(|p: Property| p@) + collected(
            *value,
            texts(old(path)@),
        ),
    decreases value,
{
    let ghost prefix = texts(path@);
    let ghost start = properties@.map_values(|p: Property| p@);
    let fields = match fields_of(value) {
        Some(f) => f,
        None => {
            assert(properties@.map_values(|p: Property| p@) =~= start + collected(*value, prefix));
            return;
        },
    };
    let mut i: usize = 0;
    while i < fields.len()
        invariant
            0 <= i <= fields@.len(),
            fields@ == value.spec_fields(),
            texts(path@) == prefix,
            properties@.map_values(|p: Property| p@) == start + collected_fields(fields@.take(i as int), prefix),
        decreases fields@.len() - i,
    {
        let field = &fields[i];
        proof {
            assert(fields@.take(i + 1).drop_last() =~= fields@.take(i as int));
            assert(fields@.take(i + 1).last() == fields@[i as int]);
        }
        let ghost path_before = path@;
        path.push(field.name.clone());
        proof {
            lemma_texts_push(path_before, field.name);
        }
        assert(texts(path@) =~= prefix.push(field.name@));
        match &field.value {
            Editable::Leaf { type_id, slot } => {
                let segments = clone_segments(path);
                let ghost before = properties@.map_values(|p: Property| p@);
                properties.push(Property { path: PropertyPath(segments), type_id: *type_id, slot: *slot });
                assert(properties@.map_values(|p: Property| p@) =~= before.push(
                    PropertyView { path: prefix.push(field.name@), type_id: *type_id, slot: *slot },
                ));
            },
            Editable::Composite { .. } => {
                collect_into(&field.value, path, properties);
            },
        }
        let ghost pushed = path@;
        path.pop();
        proof {
            lemma_texts_drop_last(pushed);
            assert(pushed.drop_last() == path@);
        }
        assert(texts(path@) =~= prefix);
        i = i + 1;
        assert(properties@.map_values(|p: Property| p@) =~= start + collected_fields(fields@.take(i as int), prefix));
    }
    assert(fields@.take(fields@.len() as int) =~= fields@);
}

/// Every leaf below `root`, in field order, each with its path.
pub fn collect(root: &Editable) -> (properties: Vec<Property>)
    ensures
        properties@.map_values(|p: Property| p@) == collected(*root, Seq::empty()),
{
    let mut path: Vec<String> = Vec::new();
    let mut properties: Vec<Property> = Vec::new();
    assert(texts(path@) =~= Seq::<Seq<char>>::empty());
    collect_into(root, &mut path, &mut properties);
    assert(properties@.map_values(|p: Property| p@) =~= collected(*root, Seq::empty()));
    properties
}

/// Where an edit along `path` lands in `root`: the leaf at its end. A path
/// that stops on a composite, runs on past a leaf, names a missing field,
/// or is empty, is not found.
pub open spec fn apply_target(root: Editable, path: Seq<Seq<char>>) -> Result<u64, ApplyError> {
    if path.len() == 0 {
        Err(ApplyError::NotFound)
    } else {
        match resolve(root, path.drop_last()) {
            Some(parent) => match parent {
                Editable::Composite { .. } => match field_named(parent.spec_fields(), path.last()) {
                    Some(i) => match parent.spec_fields()[i].value {
                        Editable::Leaf { slot, .. } => Ok(slot),
                        Editable::Composite { .. } => Err(ApplyError::NotFound),
                    },
                    None => Err(ApplyError::NotFound),
                },
                Editable::Leaf { .. } => Err(ApplyError::NotFound),
            },
            None => Err(ApplyError::NotFound),
        }
    }
}

/// Finds the leaf an edit along `path` writes: its slot, for its owner to
/// write and to accept or refuse the value.
pub fn apply(root: &Editable, path: &PropertyPath) -> (target: Result<u64, ApplyError>)
    ensures
        target == apply_target(*root, path@),
{
    let segments = path.segments();
    let ghost p = path@;
    if segments.len() == 0 {
        return Err(ApplyError::NotFound);
    }
    let last = segments.len() - 1;
    let mut current = root;
    let mut d: usize = 0;
    let ghost front = p.drop_last();
    assert(front.skip(0) =~= front);
    while d < last
        invariant
            0 <= d <= last,
            last + 1 == segments@.len(),
            texts(segments@) == p,
            p == path@,
            front == p.drop_last(),
            resolve(*root, front) == resolve(*current, front.skip(d as int)),
        decreases last - d,
    {
        let ghost q = front.skip(d as int);
        assert(q.len() > 0);
        assert(q[0] == segments@[d as int]@);
        assert(q.drop_first() =~= front.skip(d + 1));
        let fields = match fields_of(current) {
            Some(f) => f,
            None => {
                assert(field_named(current.spec_fields(), q[0]) is None);
                assert(resolve(*current, q) is None);
                return Err(ApplyError::NotFound);
            },
        };
        match find_field(fields, segments[d].as_str()) {
            Some(i) => {
                assert(resolve(*current, q) == resolve(fields@[i as int].value, q.drop_first()));
                current = &fields[i].value;
            },
            None => {
                assert(resolve(*current, q) is None);
                return Err(ApplyError::NotFound);
            },
        }
        d = d + 1;
    }
    assert(front.skip(d as int) =~= Seq::<Seq<char>>::empty());
    assert(p.last() == segments@[last as int]@);
    let fields = match fields_of(current) {
        Some(f) => f,
        None => {
            return Err(ApplyError::NotFound);
        },
    };
    match find_field(fields, segments[last].as_str()) {
        Some(i) => match &fields[i].value {
            Editable::Leaf { slot, .. } => Ok(*slot),
            Editable::Composite { .. } => Err(ApplyError::NotFound),
        },
        None => Err(ApplyError::NotFound),
    }
}

/// An edit that found its leaf lands when the leaf accepts the value and is
/// rejected, leaving the leaf unchanged, when it does not.
pub fn finish_apply(target: Result<u64, ApplyError>, accepted: bool) -> (result: Result<(), ApplyError>)
    ensures
        result == match target {
            Ok(_) => if accepted { Ok(()) } else { Err(ApplyError::Rejected) },
            Err(e) => Err(e),
        },
{
    match target {
        Ok(_) => if accepted {
            Ok(())
        } else {
            Err(ApplyError::Rejected)
        },
        Err(e) => Err(e),
    }
}

/// The slot of a leaf, if `value` is one.
pub open spec fn leaf_slot(value: Option<Editable>) -> Option<u64> {
    match value {
        Some(Editable::Leaf { slot, .. }) => Some(slot),
        _ => None,
    }
}

/// One more step of a walk: what the segment `name` reaches from `value`.
pub open spec fn step_into(value: Editable, name: Seq<char>) -> Option<Editable> {
    match field_named(value.spec_fields(), name) {
        Some(i) => Some(value.spec_fields()[i].value),
        None => None,
    }
}

proof fn lemma_field_named_bounds(fields: Seq<Field>, name: Seq<char>)
    ensures
        field_named(fields, name) matches Some(i) ==> 0 <= i < fields.len() && fields[i].name@ == name,
{
    if exists|i: int| 0 <= i < fields.len() && fields[i].name@ == name {
        let k = choose|i: int| 0 <= i < fields.len() && fields[i].name@ == name;
        lemma_field_named_first(fields, name, k);
    }
}

proof fn lemma_resolve_push(value: Editable, path: Seq<Seq<char>>, name: Seq<char>)
    ensures
        resolve(value, path.push(name)) == match resolve(value, path) {
            Some(v) => step_into(v, name),
            None => None,
        },
    decreases path.len(),
{
    lemma_field_named_bounds(value.spec_fields(), name);
    if path.len() > 0 {
        lemma_field_named_bounds(value.spec_fields(), path[0]);
    }
    if path.len() == 0 {
        assert(path.push(name).drop_first() =~= Seq::<Seq<char>>::empty());
        assert(path.push(name)[0] == name);
        match field_named(value.spec_fields(), name) {
            Some(i) => {
                assert(resolve(value.spec_fields()[i].value, Seq::<Seq<char>>::empty()) == Some(value.spec_fields()[i].value));
            },
            None => {},
        }
    } else {
        assert(path.push(name)[0] == path[0]);
        assert(path.push(name).drop_first() =~= path.drop_first().push(name));
        match field_named(value.spec_fields(), path[0]) {
            Some(i) => {
                lemma_resolve_push(value.spec_fields()[i].value, path.drop_first(), name);
            },
            None => {},
        }
    }
}

/// An edit lands on exactly the leaf that `with_property` finds along the
/// same path, and on nothing else: it is found exactly when the path is not
/// empty and reaches a leaf.
pub proof fn law_apply_writes_the_resolved_leaf(root: Editable, path: Seq<Seq<char>>)
    ensures
        apply_target(root, path) is Ok ==> path.len() > 0 && leaf_slot(resolve(root, path)) == Some(
            apply_target(root, path).unwrap(),
        ),
        path.len() > 0 && leaf_slot(resolve(root, path)) is Some ==> apply_target(root, path) == Ok::<
            u64,
            ApplyError,
        >(leaf_slot(resolve(root, path)).unwrap()),
{
    if path.len() > 0 {
        lemma_resolve_push(root, path.drop_last(), path.last());
        assert(path.drop_last().push(path.last()) =~= path);
    }
}

/// Whether every composite below `fields` names its fields apart, as a
/// struct's fields are.
pub open spec fn fields_well_named(fields: Seq<Field>) -> bool
    decreases fields, 0int,
{
    if fields.len() == 0 {
        true
    } else {
        &&& fields_well_named(fields.drop_last())
        &&& well_named(fields.last().value)
        &&& forall|i: int| 0 <= i < fields.len() - 1 ==> fields[i].name@ != fields.last().name@
    }
}

/// Whether every composite in `value` names its fields apart.
pub open spec fn well_named(value: Editable) -> bool
    decreases value, 1int,
{
    match value {
        Editable::Leaf { .. } => true,
        Editable::Composite { fields, .. } => fields_well_named(fields@),
    }
}

/// What a non-empty `path` reaches through the field its first segment
/// names.
pub open spec fn resolve_through(fields: Seq<Field>, path: Seq<Seq<char>>) -> Option<Editable> {
    match field_named(fields, path[0]) {
        Some(i) => resolve(fields[i].value, path.drop_first()),
        None => None,
    }
}

proof fn lemma_field_named_is(fields: Seq<Field>, name: Seq<char>, k: int)
    requires
        0 <= k < fields.len(),
        fields[k].name@ == name,
        forall|j: int| 0 <= j < k ==> fields[j].name@ != name,
    ensures
        field_named(fields, name) == Some(k),
{
    lemma_field_named_first(fields, name, k);
    let c = choose|i: int| 0 <= i < fields.len() && fields[i].name@ == name && forall|j: int| 0 <= j < i ==> fields[j].name@ != name;
    if c < k {
        assert(fields[c].name@ == name);
    } else if c > k {
        assert(fields[k].name@ == name);
    }
}

proof fn lemma_field_named_spec(fields: Seq<Field>, name: Seq<char>)
    ensures
        field_named(fields, name) matches Some(i) ==> {
            &&& 0 <= i < fields.len()
            &&& fields[i].name@ == name
            &&& forall|j: int| 0 <= j < i ==> fields[j].name@ != name
        },
{
    if exists|i: int| 0 <= i < fields.len() && fields[i].name@ == name {
        let k = choose|i: int| 0 <= i < fields.len() && fields[i].name@ == name;
        lemma_field_named_first(fields, name, k);
    }
}

proof fn lemma_field_named_push(fields: Seq<Field>, extra: Field, name: Seq<char>)
    requires
        field_named(fields, name) is Some,
    ensures
        field_named(fields.push(extra), name) == field_named(fields, name),
{
    lemma_field_named_spec(fields, name);
    let i = field_named(fields, name).unwrap();
    let longer = fields.push(extra);
    assert(longer[i] == fields[i]);
    assert forall|j: int| 0 <= j < i implies longer[j].name@ != name by {
        assert(longer[j] == fields[j]);
    }
    lemma_field_named_is(longer, name, i);
}

proof fn lemma_collected_resolves(value: Editable, prefix: Seq<Seq<char>>, k: int)
    requires
        well_named(value),
        0 <= k < collected(value, prefix).len(),
    ensures
        ({
            let p = collected(value, prefix)[k];
            &&& p.path.len() > prefix.len()
            &&& p.path.take(prefix.len() as int) == prefix
            &&& resolve(value, p.path.skip(prefix.len() as int)) == Some(Editable::Leaf { type_id: p.type_id, slot: p.slot })
        }),
    decreases value, 1int,
{
    match value {
        Editable::Leaf { .. } => {},
        Editable::Composite { fields, .. } => {
            lemma_collected_fields_resolve(fields@, prefix, k);
            let p = collected(value, prefix)[k];
            let q = p.path.skip(prefix.len() as int);
            assert(q.len() > 0);
            assert(resolve(value, q) == resolve_through(fields@, q));
        },
    }
}

proof fn lemma_collected_fields_resolve(fields: Seq<Field>, prefix: Seq<Seq<char>>, k: int)
    requires
        fields_well_named(fields),
        0 <= k < collected_fields(fields, prefix).len(),
    ensures
        ({
            let p = collected_fields(fields, prefix)[k];
            &&& p.path.len() > prefix.len()
            &&& p.path.take(prefix.len() as int) == prefix
            &&& resolve_through(fields, p.path.skip(prefix.len() as int)) == Some(
                Editable::Leaf { type_id: p.type_id, slot: p.slot },
            )
        }),
    decreases fields, 0int,
{
    let f = fields.last();
    let front = fields.drop_last();
    let path = prefix.push(f.name@);
    let before = collected_fields(front, prefix);
    let own = match f.value {
        Editable::Leaf { type_id, slot } => seq![PropertyView { path, type_id, slot }],
        Editable::Composite { .. } => collected(f.value, path),
    };
    assert(collected_fields(fields, prefix) == before + own);
    assert(fields =~= front.push(f));
    assert(forall|j: int| 0 <= j < fields.len() - 1 ==> fields[j].name@ != f.name@);
    if k < before.len() {
        lemma_collected_fields_resolve(front, prefix, k);
        let p = before[k];
        let q = p.path.skip(prefix.len() as int);
        assert(collected_fields(fields, prefix)[k] == p);
        assert(field_named(front, q[0]) is Some);
        lemma_field_named_push(front, f, q[0]);
        lemma_field_named_bounds(front, q[0]);
        let i = field_named(front, q[0]).unwrap();
        assert(fields[i] == front[i]);
    } else {
        let m = k - before.len();
        assert(collected_fields(fields, prefix)[k] == own[m]);
        assert forall|j: int| 0 <= j < fields.len() - 1 implies fields[j].name@ != f.name@ by {}
        lemma_field_named_is(fields, f.name@, fields.len() - 1);
        match f.value {
            Editable::Leaf { type_id, slot } => {
                let q = path.skip(prefix.len() as int);
                assert(q =~= seq![f.name@]);
                assert(path.take(prefix.len() as int) =~= prefix);
                assert(q.drop_first() =~= Seq::<Seq<char>>::empty());
            },
            Editable::Composite { .. } => {
                lemma_collected_resolves(f.value, path, m);
                let p = own[m];
                let r = p.path.skip(path.len() as int);
                let q = p.path.skip(prefix.len() as int);
                assert(p.path.take(path.len() as int) == path);
                assert(p.path.take(prefix.len() as int) =~= path.take(prefix.len() as int));
                assert(path.take(prefix.len() as int) =~= prefix);
                assert(q[0] == p.path[prefix.len() as int]);
                assert(p.path[prefix.len() as int] == p.path.take(path.len() as int)[prefix.len() as int]);
                assert(q.drop_first() =~= r);
            },
        }
    }
}

/// Every property `collect` lists is found again by `with_property` along
/// its path, as the leaf it was collected from, whenever every composite
/// names its fields apart (as a struct does).
pub proof fn law_collected_paths_resolve(root: Editable, k: int)
    requires
        well_named(root),
        0 <= k < collected(root, Seq::empty()).len(),
    ensures
        resolve(root, collected(root, Seq::empty())[k].path) == Some(
            Editable::Leaf {
                type_id: collected(root, Seq::empty())[k].type_id,
                slot: collected(root, Seq::empty())[k].slot,
            },
        ),
{
    lemma_collected_resolves(root, Seq::empty(), k);
    let p = collected(root, Seq::empty())[k];
    assert(p.path.skip(0) =~= p.path);
}

} // verus!
