//! The shell's skeleton: named regions overlaid on a full-bleed scene.
//!
//! Panels declare an id, a title and a region; the dock places the regions and
//! hands each panel a body entity to build into. The topology is a constant:
//! panels move between regions by changing their declaration, never by
//! dragging.
use vstd::prelude::*;

use crate::entity::Entity;
use crate::text::{same_text, to_uppercase, uppercase};

verus! {

/// Where a panel sits over the scene.
#[derive(Clone, Copy, PartialEq, Eq, Debug, Hash, Structural)]
pub enum Region {
    /// Full-bleed, behind everything else. The scene itself.
    Scene,
    /// Top strip, flush left: what is open.
    Brand,
    /// Top strip, flush right: running costs.
    Stats,
    /// Left rail. Panels stack, sharing its height.
    Rail,
    /// Right card.
    Side,
    /// Centre foot, stacked above the bottom edge.
    Foot,
}

/// The regions in the order the dock places them.
pub open spec fn all_regions() -> Seq<Region> {
    seq![Region::Scene, Region::Brand, Region::Stats, Region::Rail, Region::Side, Region::Foot]
}

impl Region {
    /// Whether the region's panels are floating cards rather than bare chrome.
    pub open spec fn spec_is_card(self) -> bool {
        self == Region::Rail || self == Region::Side
    }

    /// Whether the region's panels are floating cards rather than bare chrome.
    pub fn is_card(self) -> (card: bool)
        ensures
            card == self.spec_is_card(),
    {
        match self {
            Region::Rail | Region::Side => true,
            _ => false,
        }
    }

    /// Whether a panel body in this region is hit before the scene behind it:
    /// every region drawn over the scene is.
    pub fn blocks_pointer(self) -> (blocks: bool)
        ensures
            blocks == (self != Region::Scene),
    {
        match self {
            Region::Scene => false,
            _ => true,
        }
    }

    /// The regions in the order the dock places them.
    pub fn all() -> (regions: Vec<Region>)
        ensures
            regions@ == all_regions(),
    {
        let regions = vec![Region::Scene, Region::Brand, Region::Stats, Region::Rail, Region::Side, Region::Foot];
        assert(regions@ =~= all_regions());
        regions
    }
}

/// A panel's declaration. Data only: building is the panel's own business.
#[derive(Debug)]
pub struct PanelDescriptor {
    pub id: String,
    pub title: String,
    pub region: Region,
}

pub struct PanelView {
    pub id: Seq<char>,
    pub title: Seq<char>,
    pub region: Region,
}

impl View for PanelDescriptor {
    type V = PanelView;

    open spec fn view(&self) -> PanelView {
        PanelView { id: self.id@, title: self.title@, region: self.region }
    }
}

impl Clone for PanelDescriptor {
    fn clone(&self) -> (copy: Self)
        ensures
            copy@ == self@,
    {
        PanelDescriptor { id: self.id.clone(), title: self.title.clone(), region: self.region }
    }
}

/// The kicker a panel's card shows above its body: the title in capitals,
/// for card regions only.
pub open spec fn card_title(panel: PanelView) -> Option<Seq<char>> {
    if panel.region.spec_is_card() {
        Some(uppercase(panel.title))
    } else {
        None
    }
}

impl PanelDescriptor {
    /// The kicker this panel's card shows, if its region draws cards.
    pub fn card_title(&self) -> (title: Option<String>)
        ensures
            match title {
                Some(t) => card_title(self@) == Some(t@),
                None => card_title(self@) is None,
            },
    {
        if self.region.is_card() {
            Some(to_uppercase(self.title.as_str()))
        } else {
            None
        }
    }
}

pub open spec fn panels_view(panels: Seq<PanelDescriptor>) -> Seq<PanelView> {
    panels.map_values(|p: PanelDescriptor| p@)
}

/// Whether some panel of `panels` has id `id`.
pub open spec fn declares(panels: Seq<PanelView>, id: Seq<char>) -> bool {
    exists|i: int| 0 <= i < panels.len() && panels[i].id == id
}

/// The panels once `panel` is declared: appended, unless its id is taken.
pub open spec fn with_panel(panels: Seq<PanelView>, panel: PanelView) -> Seq<PanelView> {
    if declares(panels, panel.id) {
        panels
    } else {
        panels.push(panel)
    }
}

/// Declaring a panel whose id is taken changes nothing, so declaring the
/// same panel twice is declaring it once, and a later duplicate cannot move
/// the first.
pub proof fn law_registration_is_idempotent(panels: Seq<PanelView>, panel: PanelView, other: PanelView)
    ensures
        with_panel(with_panel(panels, panel), panel) == with_panel(panels, panel),
        other.id == panel.id ==> with_panel(with_panel(panels, panel), other) == with_panel(panels, panel),
        declares(with_panel(panels, panel), panel.id),
{
    let once = with_panel(panels, panel);
    if !declares(panels, panel.id) {
        assert(once[panels.len() as int] == panel);
    }
    assert(declares(once, panel.id));
}

/// The panels that declare `region`, in registration order.
pub open spec fn in_region(panels: Seq<PanelView>, region: Region) -> Seq<PanelView>
    decreases panels.len(),
{
    if panels.len() == 0 {
        Seq::empty()
    } else if panels.last().region == region {
        in_region(panels.drop_last(), region).push(panels.last())
    } else {
        in_region(panels.drop_last(), region)
    }
}

/// The body that `id` was last given.
pub open spec fn lookup_body(bodies: Seq<(Seq<char>, Entity)>, id: Seq<char>) -> Option<Entity>
    decreases bodies.len(),
{
    if bodies.len() == 0 {
        None
    } else if bodies.last().0 == id {
        Some(bodies.last().1)
    } else {
        lookup_body(bodies.drop_last(), id)
    }
}

/// The declared panels, and where the dock put them once it has run.
pub struct PanelRegistry {
    panels: Vec<PanelDescriptor>,
    bodies: Vec<(String, Entity)>,
    root: Option<Entity>,
}

impl PanelRegistry {
    pub closed spec fn spec_panels(&self) -> Seq<PanelView> {
        panels_view(self.panels@)
    }

    pub closed spec fn spec_bodies(&self) -> Seq<(Seq<char>, Entity)> {
        self.bodies@.map_values(|b: (String, Entity)| (b.0@, b.1))
    }

    pub closed spec fn spec_root(&self) -> Option<Entity> {
        self.root
    }

    /// No two panels share an id.
    pub open spec fn wf(&self) -> bool {
        forall|i: int, j: int|
            0 <= i < j < self.spec_panels().len() ==> #[trigger] self.spec_panels()[i].id
                != #[trigger] self.spec_panels()[j].id
    }

    /// No panels, and nothing placed.
    pub fn new() -> (registry: Self)
        ensures
            registry.wf(),
            registry.spec_panels() == Seq::<PanelView>::empty(),
            registry.spec_bodies() == Seq::<(Seq<char>, Entity)>::empty(),
            registry.spec_root() is None,
    {
        let registry = PanelRegistry { panels: Vec::new(), bodies: Vec::new(), root: None };
        assert(registry.spec_panels() =~= Seq::<PanelView>::empty());
        assert(registry.spec_bodies() =~= Seq::<(Seq<char>, Entity)>::empty());
        registry
    }

    /// Declares a panel. A second panel with an id already declared is
    /// ignored: the first registration wins, so a stray duplicate cannot
    /// move a panel.
    pub fn register(&mut self, panel: PanelDescriptor)
        ensures
            final(self).spec_panels() == with_panel(old(self).spec_panels(), panel@),
            old(self).wf() ==> final(self).wf(),
            final(self).spec_bodies() == old(self).spec_bodies(),
            final(self).spec_root() == old(self).spec_root(),
    {
        let ghost before = self.spec_panels();
        let mut i: usize = 0;
        while i < self.panels.len()
            invariant
                0 <= i <= self.panels@.len(),
                before == self.spec_panels(),
                forall|j: int| 0 <= j < i ==> before[j].id != panel@.id,
            decreases self.panels@.len() - i,
        {
            if self.panels[i].id == panel.id {
                assert(before[i as int].id == panel@.id);
                return;
            }
            i = i + 1;
        }
        self.panels.push(panel);
        assert(self.spec_panels() =~= before.push(panel@));
    }

    /// The node every region is placed over, once the dock has run.
    pub fn root(&self) -> (root: Option<Entity>)
        ensures
            root == self.spec_root(),
    {
        self.root
    }

    /// The entity a panel builds its contents into, once the dock has run.
    pub fn body(&self, id: &str) -> (body: Option<Entity>)
        ensures
            body == lookup_body(self.spec_bodies(), id@),
    {
        let ghost b = self.spec_bodies();
        let mut i: usize = self.bodies.len();
        assert(b.take(i as int) =~= b);
        while i > 0
            invariant
                0 <= i <= self.bodies@.len(),
                b == self.spec_bodies(),
                lookup_body(b, id@) == lookup_body(b.take(i as int), id@),
            decreases i,
        {
            assert(b.take(i as int).drop_last() =~= b.take(i - 1));
            if same_text(self.bodies[i - 1].0.as_str(), id) {
                return Some(self.bodies[i - 1].1);
            }
            i = i - 1;
        }
        None
    }

    pub fn panels(&self) -> (panels: &Vec<PanelDescriptor>)
        ensures
            panels_view(panels@) == self.spec_panels(),
    {
        &self.panels
    }

    /// The panels that declare `region`, in registration order.
    pub fn in_region(&self, region: Region) -> (panels: Vec<PanelDescriptor>)
        ensures
            panels_view(panels@) == in_region(self.spec_panels(), region),
    {
        let ghost all = self.spec_panels();
        let mut found: Vec<PanelDescriptor> = Vec::new();
        let mut i: usize = 0;
        while i < self.panels.len()
            invariant
                0 <= i <= self.panels@.len(),
                all == self.spec_panels(),
                panels_view(found@) == in_region(all.take(i as int), region),
            decreases self.panels@.len() - i,
        {
            assert(all.take(i + 1).drop_last() =~= all.take(i as int));
            if self.panels[i].region == region {
                let panel = self.panels[i].clone();
                found.push(panel);
                assert(panels_view(found@) =~= in_region(all.take(i as int), region).push(all[i as int]));
            }
            i = i + 1;
        }
        assert(all.take(self.panels@.len() as int) =~= all);
        found
    }

    /// The regions the dock has to place, in placing order, each with the
    /// panels it holds. A region nobody declared is left unplaced.
    pub fn layout(&self) -> (plan: Vec<(Region, Vec<PanelDescriptor>)>)
        ensures
            plan@.map_values(|r: (Region, Vec<PanelDescriptor>)| (r.0, panels_view(r.1@))) == dock_plan(
                self.spec_panels(),
                all_regions(),
            ),
    {
        let regions = Region::all();
        let mut plan: Vec<(Region, Vec<PanelDescriptor>)> = Vec::new();
        let mut i: usize = 0;
        while i < regions.len()
            invariant
                regions@ == all_regions(),
                0 <= i <= regions@.len(),
                plan@.map_values(|r: (Region, Vec<PanelDescriptor>)| (r.0, panels_view(r.1@))) == dock_plan(
                    self.spec_panels(),
                    regions@.take(i as int),
                ),
            decreases regions@.len() - i,
        {
            let region = regions[i];
            let panels = self.in_region(region);
            assert(regions@.take(i + 1).drop_last() =~= regions@.take(i as int));
            assert(regions@.take(i + 1).last() == region);
            if panels.len() > 0 {
                let ghost before = plan@;
                plan.push((region, panels));
                assert(plan@.map_values(|r: (Region, Vec<PanelDescriptor>)| (r.0, panels_view(r.1@)))
                    =~= before.map_values(|r: (Region, Vec<PanelDescriptor>)| (r.0, panels_view(r.1@))).push(
                    (region, in_region(self.spec_panels(), region)),
                ));
            }
            i = i + 1;
        }
        assert(regions@.take(regions@.len() as int) =~= regions@);
        plan
    }

    /// Records where the dock put the shell's root node.
    pub fn set_root(&mut self, root: Entity)
        ensures
            final(self).spec_root() == Some(root),
            final(self).spec_panels() == old(self).spec_panels(),
            final(self).spec_bodies() == old(self).spec_bodies(),
    {
        self.root = Some(root);
    }

    /// Records the body the dock gave panel `id`; a later body for the same
    /// id replaces an earlier one.
    pub fn insert_body(&mut self, id: String, body: Entity)
        ensures
            final(self).spec_bodies() == old(self).spec_bodies().push((id@, body)),
            final(self).spec_panels() == old(self).spec_panels(),
            final(self).spec_root() == old(self).spec_root(),
    {
        let ghost before = self.spec_bodies();
        self.bodies.push((id, body));
        assert(self.spec_bodies() =~= before.push((id@, body)));
    }
}

/// The regions of `order` that hold at least one panel, each with its panels.
pub open spec fn dock_plan(panels: Seq<PanelView>, order: Seq<Region>) -> Seq<(Region, Seq<PanelView>)>
    decreases order.len(),
{
    if order.len() == 0 {
        Seq::empty()
    } else {
        let before = dock_plan(panels, order.drop_last());
        let here = in_region(panels, order.last());
        if here.len() > 0 {
            before.push((order.last(), here))
        } else {
            before
        }
    }
}

/// Every panel lands in exactly the list of the region it declares: the
/// region lists split the registered panels without loss or duplication.
pub proof fn law_regions_partition_panels(panels: Seq<PanelView>, region: Region)
    ensures
        in_region(panels, region).len() <= panels.len(),
        forall|i: int| 0 <= i < in_region(panels, region).len() ==> (#[trigger] in_region(panels, region)[i]).region == region,
        all_regions().contains(region),
        in_region(panels, Region::Scene).len() + in_region(panels, Region::Brand).len() + in_region(panels, Region::Stats).len()
            + in_region(panels, Region::Rail).len() + in_region(panels, Region::Side).len() + in_region(panels, Region::Foot).len()
            == panels.len(),
    decreases panels.len(),
{
    if panels.len() > 0 {
        law_regions_partition_panels(panels.drop_last(), region);
        law_regions_partition_panels(panels.drop_last(), Region::Scene);
    }
    assert(all_regions()[0] == Region::Scene);
    assert(all_regions()[1] == Region::Brand);
    assert(all_regions()[2] == Region::Stats);
    assert(all_regions()[3] == Region::Rail);
    assert(all_regions()[4] == Region::Side);
    assert(all_regions()[5] == Region::Foot);
}

/// Registers a panel. Call from a panel plugin's `build`.
pub trait DockedApp {
    fn add_panel(&mut self, panel: PanelDescriptor) -> &mut Self;
}

impl DockedApp for PanelRegistry {
    /// Declares `panel` as [`PanelRegistry::register`] does, and hands the
    /// registry back for the next declaration.
    fn add_panel(&mut self, panel: PanelDescriptor) -> (app: &mut Self)
        ensures
            app.spec_panels() == with_panel(old(self).spec_panels(), panel@),
            old(self).wf() ==> app.wf(),
            app.spec_bodies() == old(self).spec_bodies(),
            app.spec_root() == old(self).spec_root(),
            *final(self) == *final(app),
    {
        self.register(panel);
        self
    }
}

impl Default for PanelRegistry {
    fn default() -> (value: Self)
        ensures
            value.wf(),
            value.spec_panels() == Seq::<PanelView>::empty(),
            value.spec_bodies() == Seq::<(Seq<char>, Entity)>::empty(),
            value.spec_root() is None,
    {
        PanelRegistry::new()
    }
}

} // verus!
