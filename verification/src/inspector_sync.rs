//! Keeps the inspector's cards and rows in step with the inspected entity:
//! which cards stay, which go, which are built, which read their component
//! again, and which rows a refreshed card keeps.
use vstd::prelude::*;

use crate::entity::Entity;
use crate::inspector::{entry_of, InspectorRegistry, Property, PropertyRow, PropertyRowValue};
use crate::property::{texts, PropertyPath};
use crate::text::{compare_texts, lemma_text_order, same_text, text_before, Precedence};

verus! {

/// A component of the inspected entity, under the name its card shows.
#[derive(Debug)]
pub struct ComponentName {
    pub type_id: u64,
    pub name: String,
}

impl View for ComponentName {
    type V = (u64, Seq<char>);

    open spec fn view(&self) -> (u64, Seq<char>) {
        (self.type_id, self.name@)
    }
}

pub open spec fn names_view(names: Seq<ComponentName>) -> Seq<(u64, Seq<char>)> {
    names.map_values(|n: ComponentName| n@)
}

/// The name a component's card shows: its registered name, else the short
/// name of its type, if the world knows one.
pub open spec fn card_name(registered: Option<Seq<char>>, short_name_of: Option<Seq<char>>) -> Option<Seq<char>> {
    match registered {
        Some(n) => Some(n),
        None => short_name_of,
    }
}

/// The components that get a card, in the order the entity lists them: those
/// with a name, under that name.
pub open spec fn named_components(
    components: Seq<(u64, Option<Seq<char>>)>,
    registered: Map<u64, Seq<char>>,
) -> Seq<(u64, Seq<char>)>
    decreases components.len(),
{
    if components.len() == 0 {
        Seq::empty()
    } else {
        let (type_id, short_name_of) = components.last();
        let rest = named_components(components.drop_last(), registered);
        match card_name(entry_of(registered, type_id), short_name_of) {
            Some(n) => rest.push((type_id, n)),
            None => rest,
        }
    }
}

pub open spec fn short_name_ofs_view(components: Seq<(u64, Option<String>)>) -> Seq<(u64, Option<Seq<char>>)> {
    components.map_values(|c: (u64, Option<String>)| (c.0, match c.1 { Some(s) => Some(s@), None => None }))
}

/// The components of the inspected entity that get a card, each under its
/// registered name or, failing that, the short name of its type; a
/// component with neither gets no card. `components` pairs each type with
/// the short name the world knows for it.
pub fn component_names(registry: &InspectorRegistry, components: &Vec<(u64, Option<String>)>) -> (names: Vec<
    ComponentName,
>)
    ensures
        names_view(names@) == named_components(short_name_ofs_view(components@), registry.spec_components()),
{
    let ghost all = short_name_ofs_view(components@);
    let mut names: Vec<ComponentName> = Vec::new();
    let mut i: usize = 0;
    while i < components.len()
        invariant
            all == short_name_ofs_view(components@),
            0 <= i <= components@.len(),
            names_view(names@) == named_components(all.take(i as int), registry.spec_components()),
        decreases components@.len() - i,
    {
        let type_id = components[i].0;
        proof {
            assert(all.take(i + 1).drop_last() =~= all.take(i as int));
            assert(all.take(i + 1).last() == all[i as int]);
        }
        let name = match registry.component(type_id) {
            Some(n) => Some(n),
            None => match &components[i].1 {
                Some(short) => Some(short.clone()),
                None => None,
            },
        };
        if let Some(name) = name {
            let ghost before = names_view(names@);
            names.push(ComponentName { type_id, name });
            assert(names_view(names@) =~= before.push((type_id, names@.last().name@)));
        }
        i = i + 1;
    }
    assert(all.take(components@.len() as int) =~= all);
    names
}

/// Whether card `x` stands above card `y`: by name in text order, then by
/// type.
pub open spec fn name_before(x: (u64, Seq<char>), y: (u64, Seq<char>)) -> bool {
    text_before(x.1, y.1) || (x.1 == y.1 && x.0 < y.0)
}

pub open spec fn in_card_order(s: Seq<(u64, Seq<char>)>) -> bool {
    forall|i: int, j: int| 0 <= i < j < s.len() ==> !name_before(#[trigger] s[j], #[trigger] s[i])
}

pub open spec fn insert_card(s: Seq<(u64, Seq<char>)>, x: (u64, Seq<char>)) -> Seq<(u64, Seq<char>)>
    decreases s.len(),
{
    if s.len() == 0 {
        seq![x]
    } else if name_before(x, s.last()) {
        insert_card(s.drop_last(), x).push(s.last())
    } else {
        s.push(x)
    }
}

/// The cards in the order they stand; cards of the same name and type keep
/// their order.
pub open spec fn card_order(s: Seq<(u64, Seq<char>)>) -> Seq<(u64, Seq<char>)>
    decreases s.len(),
{
    if s.len() == 0 {
        Seq::empty()
    } else {
        insert_card(card_order(s.drop_last()), s.last())
    }
}

/// The card order ranks cards strictly and totally, up to name and type.
pub proof fn lemma_card_order(a: (u64, Seq<char>), b: (u64, Seq<char>), c: (u64, Seq<char>))
    ensures
        !name_before(a, a),
        name_before(a, b) ==> !name_before(b, a),
        name_before(a, b) || a == b || name_before(b, a),
        name_before(a, b) && name_before(b, c) ==> name_before(a, c),
{
    lemma_text_order(a.1, b.1, c.1);
    lemma_text_order(b.1, a.1, c.1);
    lemma_text_order(a.1, c.1, b.1);
    lemma_text_order(c.1, a.1, b.1);
    lemma_text_order(b.1, c.1, a.1);
    lemma_text_order(c.1, b.1, a.1);
}

proof fn lemma_insert_card_position(s: Seq<(u64, Seq<char>)>, x: (u64, Seq<char>)) -> (p: int)
    ensures
        0 <= p <= s.len(),
        insert_card(s, x) == s.insert(p, x),
        forall|k: int| p <= k < s.len() ==> name_before(x, #[trigger] s[k]),
        p > 0 ==> !name_before(x, s[p - 1]),
    decreases s.len(),
{
    if s.len() == 0 {
        assert(insert_card(s, x) =~= s.insert(0, x));
        0
    } else if name_before(x, s.last()) {
        let p = lemma_insert_card_position(s.drop_last(), x);
        assert(insert_card(s, x) =~= s.insert(p, x));
        assert forall|k: int| p <= k < s.len() implies name_before(x, #[trigger] s[k]) by {
            if k < s.len() - 1 {
                assert(s.drop_last()[k] == s[k]);
            }
        }
        if p > 0 {
            assert(s.drop_last()[p - 1] == s[p - 1]);
        }
        p
    } else {
        assert(insert_card(s, x) =~= s.insert(s.len() as int, x));
        s.len() as int
    }
}

proof fn lemma_insert_card(s: Seq<(u64, Seq<char>)>, x: (u64, Seq<char>))
    requires
        in_card_order(s),
    ensures
        in_card_order(insert_card(s, x)),
        insert_card(s, x).to_multiset() == s.to_multiset().insert(x),
{
    let p = lemma_insert_card_position(s, x);
    let r = s.insert(p, x);
    vstd::seq_lib::to_multiset_insert(s, p, x);
    assert forall|i: int, j: int| 0 <= i < j < r.len() implies !name_before(#[trigger] r[j], #[trigger] r[i]) by {
        if j < p {
            assert(r[i] == s[i] && r[j] == s[j]);
        } else if j == p {
            assert(r[i] == s[i]);
            lemma_card_order(x, s[p - 1], s[i]);
            lemma_card_order(s[i], s[p - 1], x);
            lemma_card_order(x, s[i], s[p - 1]);
            if i < p - 1 {
                assert(!name_before(s[p - 1], s[i]));
            }
        } else if i < p {
            assert(r[i] == s[i] && r[j] == s[j - 1]);
            if i < j - 1 {
                assert(!name_before(s[j - 1], s[i]));
            }
        } else if i == p {
            assert(r[j] == s[j - 1]);
            lemma_card_order(x, s[j - 1], x);
        } else {
            assert(r[i] == s[i - 1] && r[j] == s[j - 1]);
        }
    }
}

/// The card order is sorted by name, then type, and holds exactly the cards
/// it was given.
pub proof fn lemma_card_order_sorts(s: Seq<(u64, Seq<char>)>)
    ensures
        in_card_order(card_order(s)),
        card_order(s).to_multiset() == s.to_multiset(),
    decreases s.len(),
{
    if s.len() == 0 {
        assert(card_order(s) =~= s);
    } else {
        lemma_card_order_sorts(s.drop_last());
        lemma_insert_card(card_order(s.drop_last()), s.last());
        vstd::seq_lib::to_multiset_build(s.drop_last(), s.last());
        assert(s.drop_last().push(s.last()) =~= s);
    }
}

fn name_before_exec(x: &ComponentName, y: &ComponentName) -> (before: bool)
    ensures
        before == name_before(x@, y@),
{
    match compare_texts(x.name.as_str(), y.name.as_str()) {
        Precedence::Before => true,
        Precedence::After => {
            proof { lemma_text_order(x.name@, y.name@, y.name@); }
            false
        },
        Precedence::Same => x.type_id < y.type_id,
    }
}

fn insert_name(listed: &mut Vec<ComponentName>, entry: ComponentName)
    ensures
        names_view(final(listed)@) == insert_card(names_view(old(listed)@), entry@),
{
    let ghost v = names_view(listed@);
    let mut p: usize = listed.len();
    assert(v.take(p as int) =~= v);
    assert(v.skip(p as int) =~= Seq::<(u64, Seq<char>)>::empty());
    while p > 0 && name_before_exec(&entry, &listed[p - 1])
        invariant
            v == names_view(listed@),
            0 <= p <= listed@.len(),
            insert_card(v, entry@) == insert_card(v.take(p as int), entry@) + v.skip(p as int),
        decreases p,
    {
        proof {
            let t = v.take(p as int);
            assert(t.drop_last() =~= v.take(p - 1));
            assert(t.last() == v[p - 1]);
            assert(v.skip(p - 1) =~= seq![v[p - 1]] + v.skip(p as int));
            assert(insert_card(v.take(p - 1), entry@).push(v[p - 1]) + v.skip(p as int) =~= insert_card(
                v.take(p - 1),
                entry@,
            ) + v.skip(p - 1));
        }
        p = p - 1;
    }
    proof {
        let t = v.take(p as int);
        if p == 0 {
            assert(insert_card(t, entry@) == seq![entry@]);
        } else {
            assert(insert_card(t, entry@) == t.push(entry@));
        }
        assert(insert_card(t, entry@) + v.skip(p as int) =~= v.insert(p as int, entry@));
    }
    let ghost e = entry@;
    listed.insert(p, entry);
    assert(names_view(listed@) =~= v.insert(p as int, e));
}

/// The cards in the order they stand: by name, then by type.
pub fn sort_cards(names: &Vec<ComponentName>) -> (sorted: Vec<ComponentName>)
    ensures
        names_view(sorted@) == card_order(names_view(names@)),
        in_card_order(names_view(sorted@)),
        names_view(sorted@).to_multiset() == names_view(names@).to_multiset(),
{
    let ghost all = names_view(names@);
    let mut sorted: Vec<ComponentName> = Vec::new();
    let mut i: usize = 0;
    assert(names_view(sorted@) =~= card_order(all.take(0)));
    while i < names.len()
        invariant
            all == names_view(names@),
            0 <= i <= names@.len(),
            names_view(sorted@) == card_order(all.take(i as int)),
        decreases names@.len() - i,
    {
        let entry = ComponentName { type_id: names[i].type_id, name: names[i].name.clone() };
        proof {
            assert(all.take(i + 1).drop_last() =~= all.take(i as int));
            assert(all.take(i + 1).last() == all[i as int]);
        }
        insert_name(&mut sorted, entry);
        i = i + 1;
    }
    assert(all.take(names@.len() as int) =~= all);
    proof {
        lemma_card_order_sorts(all);
    }
    sorted
}

/// What a card remembers of the component it inspects: whose it is, its
/// type, and the world tick and registry revision it last read it at.
#[derive(Clone, Copy, Debug, PartialEq, Eq, Structural)]
pub struct InspectedComponent {
    pub entity: Entity,
    pub type_id: u64,
    pub last_read: Option<u64>,
    pub registry_revision: Option<u64>,
}

/// How many of `cards` inspect `target`.
pub open spec fn cards_of(cards: Seq<InspectedComponent>, target: Option<Entity>) -> nat
    decreases cards.len(),
{
    if cards.len() == 0 {
        0
    } else {
        cards_of(cards.drop_last(), target) + if target == Some(cards.last().entity) { 1nat } else { 0nat }
    }
}

/// The number the panel's count line shows: the cards that inspect the
/// inspected entity.
pub fn component_count(cards: &Vec<InspectedComponent>, target: Option<Entity>) -> (count: usize)
    ensures
        count == cards_of(cards@, target),
{
    let mut count: usize = 0;
    let mut i: usize = 0;
    while i < cards.len()
        invariant
            0 <= i <= cards@.len(),
            count == cards_of(cards@.take(i as int), target),
            count <= i,
        decreases cards@.len() - i,
    {
        assert(cards@.take(i + 1).drop_last() =~= cards@.take(i as int));
        assert(cards@.take(i + 1).last() == cards@[i as int]);
        let counts = match target {
            Some(t) => t.0 == cards[i].entity.0,
            None => false,
        };
        if counts {
            count = count + 1;
        }
        i = i + 1;
    }
    assert(cards@.take(cards@.len() as int) =~= cards@);
    count
}

/// A card as it stands in the world: its entity, what it inspects, the node
/// it hangs from, and whether its component changed since the card last
/// read it.
#[derive(Clone, Copy, Debug, PartialEq, Eq, Structural)]
pub struct CardInWorld {
    pub card: Entity,
    pub inspects: InspectedComponent,
    pub parent: Option<Entity>,
    pub changed: bool,
}

/// Where a card comes from: one already standing, or a new one.
#[derive(Clone, Copy, Debug, PartialEq, Eq, Structural)]
pub enum CardSlot {
    Keep(Entity),
    Build,
}

/// One card of the stack, top to bottom: the component it inspects, the
/// name it shows, where it comes from, and whether it reads its component
/// again.
#[derive(Debug)]
pub struct CardStep {
    pub type_id: u64,
    pub name: String,
    pub slot: CardSlot,
    pub refresh: bool,
}

pub struct CardStepView {
    pub type_id: u64,
    pub name: Seq<char>,
    pub slot: CardSlot,
    pub refresh: bool,
}

impl View for CardStep {
    type V = CardStepView;

    open spec fn view(&self) -> CardStepView {
        CardStepView { type_id: self.type_id, name: self.name@, slot: self.slot, refresh: self.refresh }
    }
}

/// What the inspector does to its cards this frame: the cards it removes,
/// and the stack it shows, top to bottom.
#[derive(Debug)]
pub struct CardPlan {
    pub despawn: Vec<Entity>,
    pub steps: Vec<CardStep>,
}

pub open spec fn steps_view(steps: Seq<CardStep>) -> Seq<CardStepView> {
    steps.map_values(|s: CardStep| s@)
}

/// Whether some wanted card inspects components of type `type_id`.
pub open spec fn wants_type(wanted: Seq<(u64, Seq<char>)>, type_id: u64) -> bool {
    exists|i: int| 0 <= i < wanted.len() && wanted[i].0 == type_id
}

/// Whether a standing card stays: it hangs from the stack, inspects the
/// target, and its component is still wanted.
pub open spec fn keeps_card(
    c: CardInWorld,
    stack: Option<Entity>,
    target: Option<Entity>,
    wanted: Seq<(u64, Seq<char>)>,
) -> bool {
    &&& stack is Some
    &&& c.parent == stack
    &&& target == Some(c.inspects.entity)
    &&& wants_type(wanted, c.inspects.type_id)
}

/// The cards that stay, in the order they stand.
pub open spec fn kept_cards(
    cards: Seq<CardInWorld>,
    stack: Option<Entity>,
    target: Option<Entity>,
    wanted: Seq<(u64, Seq<char>)>,
) -> Seq<CardInWorld>
    decreases cards.len(),
{
    if cards.len() == 0 {
        Seq::empty()
    } else {
        let rest = kept_cards(cards.drop_last(), stack, target, wanted);
        if keeps_card(cards.last(), stack, target, wanted) {
            rest.push(cards.last())
        } else {
            rest
        }
    }
}

/// The cards that go, in the order they stand.
pub open spec fn dropped_cards(
    cards: Seq<CardInWorld>,
    stack: Option<Entity>,
    target: Option<Entity>,
    wanted: Seq<(u64, Seq<char>)>,
) -> Seq<Entity>
    decreases cards.len(),
{
    if cards.len() == 0 {
        Seq::empty()
    } else {
        let rest = dropped_cards(cards.drop_last(), stack, target, wanted);
        if keeps_card(cards.last(), stack, target, wanted) {
            rest
        } else {
            rest.push(cards.last().card)
        }
    }
}

/// The first of `cards` that inspects components of type `type_id`.
pub open spec fn first_card(cards: Seq<CardInWorld>, type_id: u64) -> Option<CardInWorld>
    decreases cards.len(),
{
    if cards.len() == 0 {
        None
    } else if cards[0].inspects.type_id == type_id {
        Some(cards[0])
    } else {
        first_card(cards.drop_first(), type_id)
    }
}

/// Whether a card reads its component again: a new card always does; a
/// standing one when it never read it, when editors were registered since,
/// or when the component changed since it read it.
pub open spec fn needs_refresh(found: Option<CardInWorld>, revision: u64) -> bool {
    match found {
        None => true,
        Some(c) => c.inspects.last_read is None || c.inspects.registry_revision != Some(revision) || c.changed,
    }
}

/// The stack's cards, top to bottom, for the wanted cards in card order.
pub open spec fn card_step(n: (u64, Seq<char>), kept: Seq<CardInWorld>, revision: u64) -> CardStepView {
    let found = first_card(kept, n.0);
    CardStepView {
        type_id: n.0,
        name: n.1,
        slot: match found {
            Some(c) => CardSlot::Keep(c.card),
            None => CardSlot::Build,
        },
        refresh: needs_refresh(found, revision),
    }
}

pub open spec fn card_steps(order: Seq<(u64, Seq<char>)>, kept: Seq<CardInWorld>, revision: u64) -> Seq<CardStepView> {
    order.map_values(|n: (u64, Seq<char>)| card_step(n, kept, revision))
}

fn same_place(a: Option<Entity>, b: Option<Entity>) -> (same: bool)
    ensures
        same == (a == b),
{
    match (a, b) {
        (Some(x), Some(y)) => x.0 == y.0,
        (None, None) => true,
        _ => false,
    }
}

fn wants_type_exec(names: &Vec<ComponentName>, type_id: u64) -> (wanted: bool)
    ensures
        wanted == wants_type(names_view(names@), type_id),
{
    let mut i: usize = 0;
    while i < names.len()
        invariant
            0 <= i <= names@.len(),
            forall|j: int| 0 <= j < i ==> names_view(names@)[j].0 != type_id,
        decreases names@.len() - i,
    {
        if names[i].type_id == type_id {
            assert(names_view(names@)[i as int].0 == type_id);
            return true;
        }
        i = i + 1;
    }
    false
}

fn first_card_exec(cards: &Vec<CardInWorld>, type_id: u64) -> (found: Option<CardInWorld>)
    ensures
        found == first_card(cards@, type_id),
{
    let mut i: usize = 0;
    assert(cards@.skip(0) =~= cards@);
    while i < cards.len()
        invariant
            0 <= i <= cards@.len(),
            first_card(cards@, type_id) == first_card(cards@.skip(i as int), type_id),
        decreases cards@.len() - i,
    {
        assert(cards@.skip(i as int)[0] == cards@[i as int]);
        assert(cards@.skip(i as int).drop_first() =~= cards@.skip(i + 1));
        if cards[i].inspects.type_id == type_id {
            return Some(cards[i]);
        }
        i = i + 1;
    }
    assert(cards@.skip(i as int) =~= Seq::<CardInWorld>::empty());
    None
}

/// Plans the inspector's cards for `target`, whose components get cards
/// under `names`, on the stack node `stack`: cards that no longer hang from
/// the stack, inspect another entity, or inspect a component no longer
/// wanted go; the stack then shows one card per wanted component, by name
/// and then type, keeping the first standing card of each and building the
/// rest. With no stack or no target there is no stack to show.
pub fn plan_cards(
    target: Option<Entity>,
    stack: Option<Entity>,
    cards: &Vec<CardInWorld>,
    names: &Vec<ComponentName>,
    registry_revision: u64,
) -> (plan: CardPlan)
    ensures
        plan.despawn@ == dropped_cards(cards@, stack, target, names_view(names@)),
        steps_view(plan.steps@) == if stack is Some && target is Some {
            card_steps(card_order(names_view(names@)), kept_cards(cards@, stack, target, names_view(names@)), registry_revision)
        } else {
            Seq::empty()
        },
{
    let ghost wanted = names_view(names@);
    let mut despawn: Vec<Entity> = Vec::new();
    let mut kept: Vec<CardInWorld> = Vec::new();
    let mut i: usize = 0;
    while i < cards.len()
        invariant
            wanted == names_view(names@),
            0 <= i <= cards@.len(),
            kept@ == kept_cards(cards@.take(i as int), stack, target, wanted),
            despawn@ == dropped_cards(cards@.take(i as int), stack, target, wanted),
        decreases cards@.len() - i,
    {
        let card = cards[i];
        proof {
            assert(cards@.take(i + 1).drop_last() =~= cards@.take(i as int));
            assert(cards@.take(i + 1).last() == card);
        }
        let stays = match stack {
            Some(_) => same_place(card.parent, stack) && same_place(target, Some(card.inspects.entity))
                && wants_type_exec(names, card.inspects.type_id),
            None => false,
        };
        if stays {
            kept.push(card);
        } else {
            despawn.push(card.card);
        }
        i = i + 1;
    }
    assert(cards@.take(cards@.len() as int) =~= cards@);
    if stack.is_none() || target.is_none() {
        let steps: Vec<CardStep> = Vec::new();
        assert(steps_view(steps@) =~= Seq::<CardStepView>::empty());
        return CardPlan { despawn, steps };
    }
    let order = sort_cards(names);
    let ghost ordered = names_view(order@);
    let mut steps: Vec<CardStep> = Vec::new();
    let mut k: usize = 0;
    while k < order.len()
        invariant
            ordered == names_view(order@),
            0 <= k <= order@.len(),
            steps_view(steps@) == card_steps(ordered.take(k as int), kept@, registry_revision),
        decreases order@.len() - k,
    {
        let type_id = order[k].type_id;
        let found = first_card_exec(&kept, type_id);
        let (slot, refresh) = match found {
            Some(c) => (
                CardSlot::Keep(c.card),
                c.inspects.last_read.is_none() || !same_revision(c.inspects.registry_revision, registry_revision)
                    || c.changed,
            ),
            None => (CardSlot::Build, true),
        };
        let ghost before = steps_view(steps@);
        steps.push(CardStep { type_id, name: order[k].name.clone(), slot, refresh });
        k = k + 1;
        assert(steps_view(steps@) =~= card_steps(ordered.take(k as int), kept@, registry_revision)) by {
            assert(ordered.take(k as int) =~= ordered.take(k - 1).push(ordered[k - 1]));
            assert(steps_view(steps@) =~= before.push(card_step(ordered[k - 1], kept@, registry_revision)));
        }
    }
    assert(ordered.take(order@.len() as int) =~= ordered);
    CardPlan { despawn, steps }
}

fn same_revision(seen: Option<u64>, revision: u64) -> (same: bool)
    ensures
        same == (seen == Some(revision)),
{
    match seen {
        Some(r) => r == revision,
        None => false,
    }
}

/// A child standing under a card's body: its entity, the row it was built
/// as (none for a child that is no property row), and the snapshot it shows.
#[derive(Debug)]
pub struct StandingRow {
    pub row: Entity,
    pub built: Option<PropertyRow>,
    pub value: Option<PropertyRowValue>,
}

/// What becomes of one property of a refreshed card: a standing row that
/// already shows it (with its snapshot replaced when it changed), or a new
/// row.
#[derive(Clone, Copy, Debug, PartialEq, Eq, Structural)]
pub enum RowStep {
    Keep { row: Entity, refresh_value: bool },
    Spawn,
}

/// What a refreshed card does to its rows: whether its body shows at all,
/// the rows in property order, and the rows that go.
#[derive(Debug)]
pub struct RowPlan {
    pub visible: bool,
    pub steps: Vec<RowStep>,
    pub despawn: Vec<Entity>,
}

/// Whether a standing row already shows property `p` of component
/// `component` of `entity`: built for the same target, path, type and
/// editor registration.
pub open spec fn row_fits(r: StandingRow, entity: Entity, component: u64, p: Property) -> bool {
    match r.built {
        Some(b) => b.entity == entity && b.component == component && b.path@ == p.path@ && b.type_id == p.type_id
            && b.registration == p.registration,
        None => false,
    }
}

/// The first standing row that shows property `p`.
pub open spec fn first_fit(rows: Seq<StandingRow>, entity: Entity, component: u64, p: Property) -> Option<int>
    decreases rows.len(),
{
    if rows.len() == 0 {
        None
    } else if row_fits(rows[0], entity, component, p) {
        Some(0)
    } else {
        match first_fit(rows.drop_first(), entity, component, p) {
            Some(i) => Some(i + 1),
            None => None,
        }
    }
}

/// The rows once row `i` is taken out and the last row moved into its place.
pub open spec fn swap_out(rows: Seq<StandingRow>, i: int) -> Seq<StandingRow> {
    rows.update(i, rows.last()).drop_last()
}

/// The steps for `props`, in order, and the rows none of them took: each
/// property takes the first standing row that shows it, if there is one.
pub open spec fn reconcile(
    rows: Seq<StandingRow>,
    entity: Entity,
    component: u64,
    props: Seq<(Property, PropertyRowValue)>,
) -> (Seq<RowStep>, Seq<StandingRow>)
    decreases props.len(),
{
    if props.len() == 0 {
        (Seq::empty(), rows)
    } else {
        let (p, v) = props[0];
        match first_fit(rows, entity, component, p) {
            Some(i) => {
                let rest = reconcile(swap_out(rows, i), entity, component, props.drop_first());
                (seq![RowStep::Keep { row: rows[i].row, refresh_value: rows[i].value != Some(v) }] + rest.0, rest.1)
            },
            None => {
                let rest = reconcile(rows, entity, component, props.drop_first());
                (seq![RowStep::Spawn] + rest.0, rest.1)
            },
        }
    }
}

pub open spec fn row_entities(rows: Seq<StandingRow>) -> Seq<Entity> {
    rows.map_values(|r: StandingRow| r.row)
}

/// The standing rows the steps keep, in order.
pub open spec fn kept_rows(steps: Seq<RowStep>) -> Seq<Entity>
    decreases steps.len(),
{
    if steps.len() == 0 {
        Seq::empty()
    } else {
        let rest = kept_rows(steps.drop_last());
        match steps.last() {
            RowStep::Keep { row, .. } => rest.push(row),
            RowStep::Spawn => rest,
        }
    }
}

/// Whether two property paths name the same node.
pub fn same_path(a: &PropertyPath, b: &PropertyPath) -> (same: bool)
    ensures
        same == (a@ == b@),
{
    let x = a.segments();
    let y = b.segments();
    if x.len() != y.len() {
        assert(texts(x@).len() == x@.len());
        return false;
    }
    let mut i: usize = 0;
    while i < x.len()
        invariant
            texts(x@) == a@,
            texts(y@) == b@,
            x@.len() == y@.len(),
            0 <= i <= x@.len(),
            forall|j: int| 0 <= j < i ==> a@[j] == b@[j],
        decreases x@.len() - i,
    {
        if !same_text(x[i].as_str(), y[i].as_str()) {
            assert(a@[i as int] != b@[i as int]);
            return false;
        }
        i = i + 1;
    }
    assert(a@ =~= b@);
    true
}

fn row_fits_exec(r: &StandingRow, entity: Entity, component: u64, p: &Property) -> (fits: bool)
    ensures
        fits == row_fits(*r, entity, component, *p),
{
    match &r.built {
        Some(b) => {
            let same_registration = match (b.registration, p.registration) {
                (Some(x), Some(y)) => x.0 == y.0,
                (None, None) => true,
                _ => false,
            };
            b.entity.0 == entity.0 && b.component == component && b.type_id == p.type_id && same_registration
                && same_path(&b.path, &p.path)
        },
        None => false,
    }
}

fn first_fit_exec(rows: &Vec<StandingRow>, entity: Entity, component: u64, p: &Property) -> (found: Option<usize>)
    ensures
        match found {
            Some(i) => first_fit(rows@, entity, component, *p) == Some(i as int) && i < rows@.len(),
            None => first_fit(rows@, entity, component, *p) is None,
        },
{
    let mut i: usize = 0;
    let ghost all = rows@;
    assert(all.skip(0) =~= all);
    while i < rows.len()
        invariant
            all == rows@,
            0 <= i <= all.len(),
            first_fit(all, entity, component, *p) == match first_fit(all.skip(i as int), entity, component, *p) {
                Some(k) => Some(k + i),
                None => None,
            },
        decreases all.len() - i,
    {
        assert(all.skip(i as int)[0] == all[i as int]);
        assert(all.skip(i as int).drop_first() =~= all.skip(i + 1));
        if row_fits_exec(&rows[i], entity, component, p) {
            return Some(i);
        }
        i = i + 1;
    }
    assert(all.skip(i as int) =~= Seq::<StandingRow>::empty());
    None
}

proof fn lemma_first_fit_in_range(rows: Seq<StandingRow>, entity: Entity, component: u64, p: Property)
    ensures
        first_fit(rows, entity, component, p) matches Some(i) ==> 0 <= i < rows.len() && row_fits(
            rows[i],
            entity,
            component,
            p,
        ),
    decreases rows.len(),
{
    if rows.len() > 0 && !row_fits(rows[0], entity, component, p) {
        lemma_first_fit_in_range(rows.drop_first(), entity, component, p);
    }
}

/// Plans the rows of a refreshed card that inspects component `component`
/// of `entity`: each property, in order, keeps the first standing row built
/// for the same target, path, type and registration (its snapshot replaced
/// when it differs), or gets a new row; the rows no property kept go. The
/// body shows when there is at least one property.
pub fn reconcile_rows(
    entity: Entity,
    component: u64,
    existing: Vec<StandingRow>,
    properties: &Vec<(Property, PropertyRowValue)>,
) -> (plan: RowPlan)
    ensures
        plan.visible == (properties@.len() > 0),
        plan.steps@ == reconcile(existing@, entity, component, properties@).0,
        plan.despawn@ == row_entities(reconcile(existing@, entity, component, properties@).1),
        kept_rows(plan.steps@).to_multiset().add(plan.despawn@.to_multiset()) == row_entities(existing@).to_multiset(),
{
    let ghost start = existing@;
    let mut rows = existing;
    let mut steps: Vec<RowStep> = Vec::new();
    let mut k: usize = 0;
    assert(properties@.skip(0) =~= properties@);
    while k < properties.len()
        invariant
            0 <= k <= properties@.len(),
            reconcile(start, entity, component, properties@) == (
                steps@ + reconcile(rows@, entity, component, properties@.skip(k as int)).0,
                reconcile(rows@, entity, component, properties@.skip(k as int)).1,
            ),
        decreases properties@.len() - k,
    {
        let ghost before_rows = rows@;
        let ghost before_steps = steps@;
        let ghost rest = properties@.skip(k as int);
        assert(rest[0] == properties@[k as int]);
        assert(rest.drop_first() =~= properties@.skip(k + 1));
        let property = &properties[k].0;
        let value = properties[k].1;
        proof {
            lemma_first_fit_in_range(rows@, entity, component, *property);
        }
        match first_fit_exec(&rows, entity, component, property) {
            Some(i) => {
                let taken = rows.swap_remove(i);
                let refresh_value = match taken.value {
                    Some(shown) => shown.0 != value.0,
                    None => true,
                };
                steps.push(RowStep::Keep { row: taken.row, refresh_value });
                proof {
                    assert(rows@ == swap_out(before_rows, i as int));
                    assert(steps@ =~= before_steps + seq![RowStep::Keep { row: before_rows[i as int].row, refresh_value }]);
                }
            },
            None => {
                steps.push(RowStep::Spawn);
                assert(steps@ =~= before_steps + seq![RowStep::Spawn]);
            },
        }
        k = k + 1;
    }
    assert(properties@.skip(k as int) =~= Seq::<(Property, PropertyRowValue)>::empty());
    assert(steps@ =~= reconcile(start, entity, component, properties@).0);
    let mut despawn: Vec<Entity> = Vec::new();
    let mut j: usize = 0;
    while j < rows.len()
        invariant
            0 <= j <= rows@.len(),
            despawn@ == row_entities(rows@.take(j as int)),
        decreases rows@.len() - j,
    {
        despawn.push(rows[j].row);
        j = j + 1;
        assert(despawn@ =~= row_entities(rows@.take(j as int)));
    }
    assert(rows@.take(rows@.len() as int) =~= rows@);
    proof {
        lemma_rows_accounted(start, entity, component, properties@);
    }
    RowPlan { visible: properties.len() > 0, steps, despawn }
}

proof fn lemma_kept_rows_prepend(step: RowStep, steps: Seq<RowStep>)
    ensures
        kept_rows(seq![step] + steps) == match step {
            RowStep::Keep { row, .. } => seq![row] + kept_rows(steps),
            RowStep::Spawn => kept_rows(steps),
        },
    decreases steps.len(),
{
    if steps.len() == 0 {
        assert((seq![step] + steps).drop_last() =~= Seq::<RowStep>::empty());
        assert(seq![step] + steps =~= seq![step]);
        assert(kept_rows(Seq::<RowStep>::empty()) == Seq::<Entity>::empty());
        match step {
            RowStep::Keep { row, .. } => {
                assert(seq![row] + Seq::<Entity>::empty() =~= Seq::<Entity>::empty().push(row));
            },
            RowStep::Spawn => {},
        }
    } else {
        lemma_kept_rows_prepend(step, steps.drop_last());
        assert((seq![step] + steps).drop_last() =~= seq![step] + steps.drop_last());
        assert((seq![step] + steps).last() == steps.last());
        match step {
            RowStep::Keep { row, .. } => match steps.last() {
                RowStep::Keep { row: last, .. } => {
                    assert(seq![row] + kept_rows(steps.drop_last()).push(last) =~= (seq![row] + kept_rows(
                        steps.drop_last(),
                    )).push(last));
                },
                RowStep::Spawn => {},
            },
            RowStep::Spawn => {},
        }
    }
}

proof fn lemma_swap_out_rows(rows: Seq<StandingRow>, i: int)
    requires
        0 <= i < rows.len(),
    ensures
        row_entities(swap_out(rows, i)).to_multiset() == row_entities(rows).to_multiset().remove(rows[i].row),
{
    broadcast use vstd::multiset::group_multiset_axioms;

    let t = row_entities(rows);
    let u = t.update(i, t.last());
    assert(row_entities(swap_out(rows, i)) =~= u.drop_last());
    vstd::seq_lib::to_multiset_update(t, i, t.last());
    assert(u.drop_last() =~= u.remove(u.len() - 1));
    vstd::seq_lib::to_multiset_remove(u, u.len() - 1);
    assert(u[u.len() - 1] == t.last());
    assert(u.drop_last().to_multiset() =~= t.to_multiset().remove(t[i]));
}

/// Reconciling accounts for every standing row exactly once: each is kept
/// for one property or goes.
pub proof fn lemma_rows_accounted(
    rows: Seq<StandingRow>,
    entity: Entity,
    component: u64,
    props: Seq<(Property, PropertyRowValue)>,
)
    ensures
        kept_rows(reconcile(rows, entity, component, props).0).to_multiset().add(
            row_entities(reconcile(rows, entity, component, props).1).to_multiset(),
        ) == row_entities(rows).to_multiset(),
    decreases props.len(),
{
    broadcast use vstd::multiset::group_multiset_axioms;

    if props.len() == 0 {
        broadcast use vstd::seq_lib::group_to_multiset_ensures;
        assert(kept_rows(Seq::<RowStep>::empty()) =~= Seq::<Entity>::empty());
        assert(Seq::<Entity>::empty().to_multiset().len() == 0);
        assert(Seq::<Entity>::empty().to_multiset() =~= vstd::multiset::Multiset::empty());
    } else {
        let (p, v) = props[0];
        lemma_first_fit_in_range(rows, entity, component, p);
        match first_fit(rows, entity, component, p) {
            Some(i) => {
                let rest = reconcile(swap_out(rows, i), entity, component, props.drop_first());
                let r = rows[i].row;
                let m = row_entities(rows).to_multiset();
                lemma_rows_accounted(swap_out(rows, i), entity, component, props.drop_first());
                let step = RowStep::Keep { row: r, refresh_value: rows[i].value != Some(v) };
                assert(reconcile(rows, entity, component, props) == (seq![step] + rest.0, rest.1));
                lemma_kept_rows_prepend(step, rest.0);
                lemma_swap_out_rows(rows, i);
                vstd::seq_lib::lemma_multiset_commutative(seq![r], kept_rows(rest.0));
                assert(seq![r].to_multiset() =~= vstd::multiset::Multiset::empty().insert(r)) by {
                    vstd::seq_lib::to_multiset_build(Seq::<Entity>::empty(), r);
                    assert(Seq::<Entity>::empty().push(r) =~= seq![r]);
                    broadcast use vstd::seq_lib::group_to_multiset_ensures;
                    assert(Seq::<Entity>::empty().to_multiset().len() == 0);
                    assert(Seq::<Entity>::empty().to_multiset() =~= vstd::multiset::Multiset::empty());
                };
                assert(m.count(r) > 0) by {
                    broadcast use vstd::seq_lib::group_to_multiset_ensures;
                    assert(row_entities(rows)[i] == r);
                    assert(row_entities(rows).contains(r));
                };
                let x = kept_rows(rest.0).to_multiset();
                let y = row_entities(rest.1).to_multiset();
                assert(x.add(y) == m.remove(r));
                assert(kept_rows(seq![step] + rest.0).to_multiset() =~= vstd::multiset::Multiset::empty().insert(r).add(x));
                let one = vstd::multiset::Multiset::<Entity>::empty().insert(r);
                assert(one.add(x).add(y) =~= one.add(x.add(y)));
                assert(one.add(m.remove(r)) =~= m) by {
                    assert forall|a: Entity| one.add(m.remove(r)).count(a) == m.count(a) by {
                        if a == r {
                            assert(one.count(a) == 1);
                        } else {
                            assert(one.count(a) == 0);
                        }
                    }
                };
            },
            None => {
                let rest = reconcile(rows, entity, component, props.drop_first());
                lemma_rows_accounted(rows, entity, component, props.drop_first());
                lemma_kept_rows_prepend(RowStep::Spawn, rest.0);
            },
        }
    }
}

proof fn lemma_first_card(cards: Seq<CardInWorld>, type_id: u64)
    ensures
        first_card(cards, type_id) matches Some(c) ==> exists|i: int|
            0 <= i < cards.len() && cards[i] == c && c.inspects.type_id == type_id,
    decreases cards.len(),
{
    if cards.len() > 0 && cards[0].inspects.type_id != type_id {
        lemma_first_card(cards.drop_first(), type_id);
        if let Some(c) = first_card(cards.drop_first(), type_id) {
            let i = choose|i: int| 0 <= i < cards.drop_first().len() && cards.drop_first()[i] == c && c.inspects.type_id == type_id;
            assert(cards[i + 1] == c);
        }
    } else if cards.len() > 0 {
        assert(cards[0] == cards[0]);
    }
}

/// A standing card is kept for at most one component: when the wanted
/// components are of distinct types and the standing cards are distinct
/// entities, no two steps keep the same card, and every kept card inspects
/// the component its step shows.
pub proof fn law_a_card_is_kept_once(order: Seq<(u64, Seq<char>)>, kept: Seq<CardInWorld>, revision: u64)
    requires
        forall|i: int, j: int| 0 <= i < j < order.len() ==> order[i].0 != order[j].0,
        forall|i: int, j: int| 0 <= i < j < kept.len() ==> kept[i].card != kept[j].card,
    ensures
        forall|i: int, j: int|
            0 <= i < j < order.len() ==> match (#[trigger] card_steps(order, kept, revision)[i].slot, #[trigger] card_steps(order, kept, revision)[j].slot) {
                (CardSlot::Keep(a), CardSlot::Keep(b)) => a != b,
                _ => true,
            },
        forall|i: int|
            0 <= i < order.len() ==> (#[trigger] card_steps(order, kept, revision)[i].slot matches CardSlot::Keep(a) ==> exists|k: int|
                0 <= k < kept.len() && kept[k].card == a && kept[k].inspects.type_id == order[i].0),
{
    assert forall|i: int, j: int| 0 <= i < j < order.len() implies match (#[trigger] card_steps(order, kept, revision)[i].slot, #[trigger] card_steps(order, kept, revision)[j].slot) {
        (CardSlot::Keep(a), CardSlot::Keep(b)) => a != b,
        _ => true,
    } by {
        lemma_first_card(kept, order[i].0);
        lemma_first_card(kept, order[j].0);
        match (first_card(kept, order[i].0), first_card(kept, order[j].0)) {
            (Some(x), Some(y)) => {
                let k = choose|k: int| 0 <= k < kept.len() && kept[k] == x && x.inspects.type_id == order[i].0;
                let l = choose|l: int| 0 <= l < kept.len() && kept[l] == y && y.inspects.type_id == order[j].0;
                assert(k != l);
                if k < l {
                    assert(kept[k].card != kept[l].card);
                } else {
                    assert(kept[l].card != kept[k].card);
                }
            },
            _ => {},
        }
    }
    assert forall|i: int| 0 <= i < order.len() implies (#[trigger] card_steps(order, kept, revision)[i].slot matches CardSlot::Keep(a)
        ==> exists|k: int| 0 <= k < kept.len() && kept[k].card == a && kept[k].inspects.type_id == order[i].0) by {
        lemma_first_card(kept, order[i].0);
    }
}

} // verus!
