use editor::property::{
    apply, collect, finish_apply, with_property, ApplyError, Editable, Field, PathError, PropertyPath,
};

const VEC3: u64 = 1;
const F32: u64 = 2;
const OUTER: u64 = 10;
const INNER: u64 = 11;

fn path(segments: &[&str]) -> PropertyPath {
    PropertyPath::new(segments.iter().map(|s| s.to_string()).collect())
}

fn field(name: &str, value: Editable) -> Field {
    Field { name: name.to_string(), value }
}

/// position: a Vec3 leaf in slot 0; inner.weight: an f32 leaf in slot 1.
fn outer() -> Editable {
    Editable::Composite {
        type_id: OUTER,
        fields: vec![
            field("position", Editable::Leaf { type_id: VEC3, slot: 0 }),
            field(
                "inner",
                Editable::Composite {
                    type_id: INNER,
                    fields: vec![field("weight", Editable::Leaf { type_id: F32, slot: 1 })],
                },
            ),
        ],
    }
}

fn type_of(value: &Editable) -> u64 {
    match value {
        Editable::Leaf { type_id, .. } => *type_id,
        Editable::Composite { type_id, .. } => *type_id,
    }
}

#[test]
fn path_name_is_the_last_segment() {
    assert_eq!(path(&["inner", "weight"]).name(), "weight");
    assert_eq!(PropertyPath::default().name(), "");
}

#[test]
fn paths_preserve_names_depth_and_segments() {
    let path = path(&["inner", "weight"]);
    assert_eq!(path.name(), "weight");
    assert_eq!(path.depth(), 2);
    assert_eq!(path.get_depth(0), Some("inner"));
    assert_eq!(path.get_depth(2), None);
    assert_eq!(PropertyPath::default().name(), "");
}

#[test]
fn segments_are_kept_in_order() {
    let p = path(&["a", "b", "c"]);
    let segments: Vec<&str> = p.segments().iter().map(|s| s.as_str()).collect();
    assert_eq!(segments, vec!["a", "b", "c"]);
    assert_eq!(p.clone().depth(), 3);
}

#[test]
fn collect_flattens_nested_leaves_in_field_order() {
    let properties = collect(&outer());
    assert_eq!(properties.len(), 2);
    assert_eq!(properties[0].path.segments(), &vec!["position".to_string()]);
    assert_eq!(properties[0].type_id, VEC3);
    assert_eq!(properties[0].slot, 0);
    assert_eq!(properties[1].path.segments(), &vec!["inner".to_string(), "weight".to_string()]);
    assert_eq!(properties[1].type_id, F32);
    assert_eq!(properties[1].slot, 1);
}

#[test]
fn apply_writes_exactly_one_nested_leaf() {
    let value = outer();
    let target = apply(&value, &path(&["inner", "weight"]));
    assert_eq!(target, Ok(1));
    assert_eq!(finish_apply(target, true), Ok(()));
}

#[test]
fn a_path_ending_on_a_struct_is_not_found() {
    assert_eq!(apply(&outer(), &path(&["inner"])), Err(ApplyError::NotFound));
}

#[test]
fn a_path_continuing_past_a_leaf_is_not_found() {
    assert_eq!(apply(&outer(), &path(&["position", "x"])), Err(ApplyError::NotFound));
}

#[test]
fn an_unknown_or_empty_path_is_not_found() {
    assert_eq!(apply(&outer(), &path(&["missing"])), Err(ApplyError::NotFound));
    assert_eq!(apply(&outer(), &PropertyPath::default()), Err(ApplyError::NotFound));
}

#[test]
fn a_rejected_value_leaves_the_leaf_unchanged() {
    let target = apply(&outer(), &path(&["position"]));
    assert_eq!(target, Ok(0));
    assert_eq!(finish_apply(target, false), Err(ApplyError::Rejected));
    assert_eq!(finish_apply(Err(ApplyError::NotFound), true), Err(ApplyError::NotFound));
}

#[test]
fn access_resolves_nested_leaf_composite_and_root() {
    let value = outer();
    for (p, expected) in [
        (path(&["inner", "weight"]), F32),
        (path(&["inner"]), INNER),
        (PropertyPath::default(), OUTER),
    ] {
        let found = with_property(&value, &p).unwrap();
        assert_eq!(type_of(found), expected);
    }
}

#[test]
fn unknown_paths_and_paths_past_opaque_values_do_not_call_back() {
    for p in [path(&["missing"]), path(&["inner", "missing"]), path(&["position", "x"])] {
        assert_eq!(with_property(&outer(), &p).err(), Some(PathError::NotFound));
    }
}

#[test]
fn the_first_field_of_a_name_wins() {
    let value = Editable::Composite {
        type_id: OUTER,
        fields: vec![
            field("twin", Editable::Leaf { type_id: F32, slot: 7 }),
            field("twin", Editable::Leaf { type_id: VEC3, slot: 8 }),
        ],
    };
    assert_eq!(apply(&value, &path(&["twin"])), Ok(7));
    assert_eq!(collect(&value).len(), 2);
}

#[test]
fn every_collected_path_leads_back_to_its_leaf() {
    let value = outer();
    for property in collect(&value) {
        match with_property(&value, &property.path).unwrap() {
            Editable::Leaf { type_id, slot } => {
                assert_eq!(*type_id, property.type_id);
                assert_eq!(*slot, property.slot);
            }
            Editable::Composite { .. } => panic!("a collected path must end on a leaf"),
        }
        assert_eq!(apply(&value, &property.path), Ok(property.slot));
    }
}
