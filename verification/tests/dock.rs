use editor::dock::{PanelDescriptor, PanelRegistry, Region};
use editor::entity::Entity;

fn panel(id: &str, region: Region) -> PanelDescriptor {
    PanelDescriptor { id: id.to_string(), title: "Panel".to_string(), region }
}

#[test]
fn panels_are_grouped_by_the_region_they_declare() {
    let mut registry = PanelRegistry::default();
    registry.register(panel("a", Region::Rail));
    registry.register(panel("b", Region::Foot));
    registry.register(panel("c", Region::Foot));

    assert_eq!(registry.in_region(Region::Rail).len(), 1);
    assert_eq!(registry.in_region(Region::Foot).len(), 2);
    assert!(
        registry.in_region(Region::Side).is_empty(),
        "an empty region is legal; the dock just leaves it unplaced"
    );
}

#[test]
fn a_duplicate_id_is_rejected_rather_than_shadowing() {
    let mut registry = PanelRegistry::default();
    registry.register(panel("a", Region::Rail));
    registry.register(panel("a", Region::Side));

    assert_eq!(registry.panels().len(), 1);
    assert_eq!(
        registry.panels()[0].region,
        Region::Rail,
        "the first registration wins, so a stray duplicate cannot move a panel"
    );
}

#[test]
fn only_the_rail_and_side_regions_are_cards() {
    assert!(Region::Rail.is_card());
    assert!(Region::Side.is_card());
    assert!(
        !Region::Scene.is_card() && !Region::Foot.is_card() && !Region::Brand.is_card(),
        "chrome must stay bare so the scene shows through it"
    );
}

#[test]
fn panels_over_the_scene_block_the_pointer() {
    for region in Region::all() {
        assert_eq!(region.blocks_pointer(), region != Region::Scene, "{region:?}");
    }
    assert_eq!(Region::all().len(), 6);
}

#[test]
fn bodies_are_unknown_until_the_dock_has_built() {
    let registry = PanelRegistry::default();
    assert_eq!(registry.body("rabbithole.warren"), None);
    assert_eq!(registry.root(), None);
}

#[test]
fn placed_bodies_are_found_by_id_and_the_latest_wins() {
    let mut registry = PanelRegistry::default();
    registry.set_root(Entity(1));
    registry.insert_body("rabbithole.warren".to_string(), Entity(2));
    registry.insert_body("rabbithole.ecs".to_string(), Entity(3));
    registry.insert_body("rabbithole.warren".to_string(), Entity(4));
    assert_eq!(registry.root(), Some(Entity(1)));
    assert_eq!(registry.body("rabbithole.warren"), Some(Entity(4)));
    assert_eq!(registry.body("rabbithole.ecs"), Some(Entity(3)));
    assert_eq!(registry.body("rabbithole.scene"), None);
}

#[test]
fn the_layout_places_declared_regions_in_order() {
    let mut registry = PanelRegistry::default();
    registry.register(panel("side", Region::Side));
    registry.register(panel("scene", Region::Scene));
    registry.register(panel("rail-1", Region::Rail));
    registry.register(panel("rail-2", Region::Rail));
    let plan = registry.layout();
    let regions: Vec<Region> = plan.iter().map(|(r, _)| *r).collect();
    assert_eq!(regions, vec![Region::Scene, Region::Rail, Region::Side]);
    let rail: Vec<&str> = plan[1].1.iter().map(|p| p.id.as_str()).collect();
    assert_eq!(rail, vec!["rail-1", "rail-2"]);
}

#[test]
fn cards_carry_their_title_in_capitals() {
    let card = PanelDescriptor { id: "x".into(), title: "Looking Glass".into(), region: Region::Side };
    assert_eq!(card.card_title(), Some("LOOKING GLASS".to_string()));
    let bare = PanelDescriptor { id: "y".into(), title: "Chatter".into(), region: Region::Foot };
    assert_eq!(bare.card_title(), None);
}
