//! The small geometric marks the design uses in place of icons: what a row
//! holds, as far as a panel can tell.
use vstd::prelude::*;

use crate::text::same_text;

verus! {

/// What a row holds, as far as the panel can tell.
#[derive(Clone, Copy, PartialEq, Eq, Debug, Structural)]
pub enum Mark {
    /// A group: something with children and nothing of its own to draw.
    Group,
    Mesh,
    Camera,
    Light,
    Material,
    Texture,
    /// A row whose kind we cannot name; drawn as a dim dot.
    Plain,
    /// An empty slot: no row here at all.
    Empty,
}

/// The mark for an asset of kind `kind`. Kinds are free-form strings from
/// the content header, so an unknown one gets the plain mark.
pub open spec fn spec_asset_mark(kind: Seq<char>) -> Mark {
    if kind == "Scene"@ {
        Mark::Group
    } else if kind == "Mesh"@ {
        Mark::Mesh
    } else if kind == "Texture"@ {
        Mark::Texture
    } else if kind == "Material"@ {
        Mark::Material
    } else {
        Mark::Plain
    }
}

/// The mark for an asset of kind `kind`.
pub fn asset_mark(kind: &str) -> (mark: Mark)
    ensures
        mark == spec_asset_mark(kind@),
{
    if same_text(kind, "Scene") {
        Mark::Group
    } else if same_text(kind, "Mesh") {
        Mark::Mesh
    } else if same_text(kind, "Texture") {
        Mark::Texture
    } else if same_text(kind, "Material") {
        Mark::Material
    } else {
        Mark::Plain
    }
}

/// What an entity is, from what it carries: a scene root is a group, then a
/// camera, a light or a mesh, then anything with children is a group.
pub open spec fn spec_entity_mark(
    scene_root: bool,
    camera: bool,
    light: bool,
    mesh: bool,
    has_children: bool,
) -> Mark {
    if scene_root {
        Mark::Group
    } else if camera {
        Mark::Camera
    } else if light {
        Mark::Light
    } else if mesh {
        Mark::Mesh
    } else if has_children {
        Mark::Group
    } else {
        Mark::Plain
    }
}

/// What an entity is, from what it carries.
pub fn entity_mark(scene_root: bool, camera: bool, light: bool, mesh: bool, has_children: bool) -> (mark: Mark)
    ensures
        mark == spec_entity_mark(scene_root, camera, light, mesh, has_children),
{
    if scene_root {
        Mark::Group
    } else if camera {
        Mark::Camera
    } else if light {
        Mark::Light
    } else if mesh {
        Mark::Mesh
    } else if has_children {
        Mark::Group
    } else {
        Mark::Plain
    }
}

} // verus!
