//! The project's asset catalogue, as a docked panel: which assets it lists,
//! which one is selected, and what a click asks for.
use vstd::prelude::*;

use crate::entity::AssetId;
use crate::marks::{asset_mark, spec_asset_mark, Mark};
use crate::project::{entry_refs_view, entries_view, matching_assets, opt_text, AssetEntry, Project};
use crate::text::{decimal, decimal_string, join, lowercase};

verus! {

/// How many kind tags the panel offers.
pub const KIND_COUNT: usize = 5;

/// The kind a tag filters by; the first tag shows everything.
pub open spec fn spec_kind_filter(tag: nat) -> Option<Seq<char>> {
    if tag == 1 {
        Some("Scene"@)
    } else if tag == 2 {
        Some("Mesh"@)
    } else if tag == 3 {
        Some("Texture"@)
    } else if tag == 4 {
        Some("Material"@)
    } else {
        None
    }
}

/// The kind a tag filters by.
pub fn kind_filter(tag: usize) -> (kind: Option<&'static str>)
    requires
        tag < KIND_COUNT,
    ensures
        opt_text(kind) == spec_kind_filter(tag as nat),
{
    proof {
        reveal_strlit("Scene");
        reveal_strlit("Mesh");
        reveal_strlit("Texture");
        reveal_strlit("Material");
    }
    if tag == 1 {
        Some("Scene")
    } else if tag == 2 {
        Some("Mesh")
    } else if tag == 3 {
        Some("Texture")
    } else if tag == 4 {
        Some("Material")
    } else {
        None
    }
}

/// The label a tag shows.
pub open spec fn spec_kind_label(tag: nat) -> Seq<char> {
    if tag == 1 {
        "scene"@
    } else if tag == 2 {
        "mesh"@
    } else if tag == 3 {
        "tex"@
    } else if tag == 4 {
        "mat"@
    } else {
        "all"@
    }
}

/// The label a tag shows.
pub fn kind_label(tag: usize) -> (label: &'static str)
    requires
        tag < KIND_COUNT,
    ensures
        label@ == spec_kind_label(tag as nat),
{
    proof {
        reveal_strlit("scene");
        reveal_strlit("mesh");
        reveal_strlit("tex");
        reveal_strlit("mat");
        reveal_strlit("all");
    }
    if tag == 1 {
        "scene"
    } else if tag == 2 {
        "mesh"
    } else if tag == 3 {
        "tex"
    } else if tag == 4 {
        "mat"
    } else {
        "all"
    }
}

/// The catalogue panel's own state. Catalogue selection is independent of
/// the open editor's entity selection.
pub struct ContentState {
    selected: Option<AssetId>,
    filter: String,
    kind: usize,
    visible_start: usize,
    visible_end: usize,
}

impl ContentState {
    pub closed spec fn spec_selected(&self) -> Option<AssetId> {
        self.selected
    }

    /// The catalogue's selected asset.
    pub fn selected(&self) -> (selected: Option<AssetId>)
        ensures
            selected == self.spec_selected(),
    {
        self.selected
    }

    pub closed spec fn spec_filter(&self) -> Seq<char> {
        self.filter@
    }

    pub closed spec fn spec_kind(&self) -> usize {
        self.kind
    }

    pub closed spec fn spec_visible(&self) -> (usize, usize) {
        (self.visible_start, self.visible_end)
    }

    /// The selected tag is one the panel offers.
    pub closed spec fn wf(&self) -> bool {
        self.kind < KIND_COUNT
    }

    pub fn new() -> (state: Self)
        ensures
            state.wf(),
            state.spec_selected() is None,
            state.spec_filter() == Seq::<char>::empty(),
            state.spec_kind() == 0,
            state.spec_visible() == (0usize, 0usize),
    {
        ContentState { selected: None, filter: String::new(), kind: 0, visible_start: 0, visible_end: 0 }
    }

    pub fn kind(&self) -> (kind: usize)
        ensures
            kind == self.spec_kind(),
    {
        self.kind
    }

    /// A new search text.
    pub fn set_filter(&mut self, filter: String)
        ensures
            final(self).spec_filter() == filter@,
            final(self).spec_kind() == old(self).spec_kind(),
            final(self).spec_visible() == old(self).spec_visible(),
            final(self).spec_selected() == old(self).spec_selected(),
            old(self).wf() ==> final(self).wf(),
    {
        self.filter = filter;
    }

    /// Mirrors the scroll area's range of visible rows.
    pub fn sync_visible(&mut self, start: usize, end: usize)
        ensures
            final(self).spec_visible() == (start, end),
            final(self).spec_filter() == old(self).spec_filter(),
            final(self).spec_kind() == old(self).spec_kind(),
            final(self).spec_selected() == old(self).spec_selected(),
            old(self).wf() ==> final(self).wf(),
    {
        self.visible_start = start;
        self.visible_end = end;
    }

    /// A click on kind tag `tag`: a different set is a different list, so
    /// nothing stays mapped onto the row pool. While a search for a project
    /// is running (`busy`) the click is ignored.
    pub fn select_kind(&mut self, tag: usize, busy: bool)
        requires
            tag < KIND_COUNT,
        ensures
            busy ==> *final(self) == *old(self),
            !busy ==> final(self).wf() && final(self).spec_kind() == tag && final(self).spec_visible() == (0usize, 0usize),
            final(self).spec_filter() == old(self).spec_filter(),
            final(self).spec_selected() == old(self).spec_selected(),
    {
        if busy {
            return;
        }
        self.kind = tag;
        self.visible_start = 0;
        self.visible_end = 0;
    }

    /// The assets the panel lists: the project's assets of the selected
    /// tag's kind that hold the search text, ignoring case.
    pub fn visible_assets<'a>(&self, project: Option<&'a Project>) -> (assets: Vec<&'a AssetEntry>)
        requires
            self.wf(),
        ensures
            entry_refs_view(assets@) == match project {
                Some(p) => matching_assets(
                    entries_view(p.assets@),
                    lowercase(self.spec_filter()),
                    None,
                    spec_kind_filter(self.spec_kind() as nat),
                ),
                None => Seq::empty(),
            },
    {
        match project {
            Some(p) => p.filtered_assets(self.filter.as_str(), None, kind_filter(self.kind)),
            None => {
                let assets: Vec<&AssetEntry> = Vec::new();
                assert(entry_refs_view(assets@) =~= Seq::<crate::project::AssetEntryView>::empty());
                assets
            },
        }
    }

    /// A click on row `slot`: the asset it shows becomes the catalogue
    /// selection, and is the one to open. A slot past the list does nothing,
    /// and so does any click while a search for a project is running
    /// (`busy`).
    pub fn click_asset(&mut self, assets: &Vec<&AssetEntry>, slot: usize, busy: bool) -> (opened: Option<AssetId>)
        requires
            old(self).spec_visible().0 + slot <= usize::MAX,
        ensures
            ({
                let at = old(self).spec_visible().0 + slot;
                if busy {
                    opened is None && final(self).spec_selected() == old(self).spec_selected()
                } else if at < assets@.len() {
                    opened == Some(assets@[at].id) && final(self).spec_selected() == opened
                } else {
                    opened is None && final(self).spec_selected() == old(self).spec_selected()
                }
            }),
            busy ==> *final(self) == *old(self),
            final(self).spec_filter() == old(self).spec_filter(),
            final(self).spec_kind() == old(self).spec_kind(),
            final(self).spec_visible() == old(self).spec_visible(),
            old(self).wf() ==> final(self).wf(),
    {
        if busy {
            return None;
        }
        let at = self.visible_start + slot;
        if at < assets.len() {
            let id = assets[at].id;
            self.selected = Some(id);
            Some(id)
        } else {
            None
        }
    }

    /// The mark row `slot` draws: that of its asset's kind, or none for a
    /// slot past the list.
    pub fn slot_mark(&self, assets: &Vec<&AssetEntry>, slot: usize) -> (mark: Mark)
        requires
            self.spec_visible().0 + slot <= usize::MAX,
        ensures
            ({
                let at = self.spec_visible().0 + slot;
                mark == if at < assets@.len() { spec_asset_mark(assets@[at].kind@) } else { Mark::Empty }
            }),
    {
        let at = self.visible_start + slot;
        if at < assets.len() {
            asset_mark(assets[at].kind.as_str())
        } else {
            Mark::Empty
        }
    }

    /// Whether row `slot` shows the selected asset.
    pub fn slot_selected(&self, assets: &Vec<&AssetEntry>, slot: usize) -> (selected: bool)
        requires
            self.spec_visible().0 + slot <= usize::MAX,
        ensures
            ({
                let at = self.spec_visible().0 + slot;
                selected == (at < assets@.len() && self.spec_selected() == Some(assets@[at].id))
            }),
    {
        let at = self.visible_start + slot;
        at < assets.len() && self.selected == Some(assets[at].id)
    }
}

/// The count line under the catalogue.
pub open spec fn spec_asset_count_label(count: nat) -> Seq<char> {
    if count == 0 {
        Seq::empty()
    } else {
        decimal(count) + " assets"@
    }
}

/// The count line under the catalogue: how many assets it lists, or nothing
/// when it lists none.
pub fn asset_count_label(count: usize) -> (label: String)
    ensures
        label@ == spec_asset_count_label(count as nat),
{
    if count == 0 {
        String::new()
    } else {
        let n = decimal_string(count as u64);
        join(n.as_str(), " assets")
    }
}

impl Default for ContentState {
    fn default() -> (value: Self)
        ensures
            value.wf(),
            value.spec_selected() is None,
            value.spec_filter() == Seq::<char>::empty(),
            value.spec_kind() == 0,
            value.spec_visible() == (0usize, 0usize),
    {
        ContentState::new()
    }
}

} // verus!
