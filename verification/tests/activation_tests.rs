use arcana_core::legal_actions::{
    ability_is_activatable, build_additional_costs, enumerate_activation_actions, legal_actions, Action,
    AdditionalCostPayment,
};
use arcana_core::mana::ManaCost;
use arcana_core::objects::{Characteristics, GameObject, ObjectId};
use arcana_core::registry::{ActivatedAbilityDef, ActivationCost, CardDefinition, CardRegistry};
use arcana_core::render::render_action;
use arcana_core::state::GameState;
use arcana_core::turn::Step;
use arcana_core::types::{CardId, CounterKind, ManaColor, PlayerId, PtValue, TypeLine};
use arcana_core::zones::Zone;

fn creature_chars(p: i32, t: i32) -> Characteristics {
    Characteristics {
        types: TypeLine::CREATURE.into(),
        power: Some(PtValue::Fixed(p)),
        toughness: Some(PtValue::Fixed(t)),
        ..Default::default()
    }
}

fn land_chars() -> Characteristics {
    Characteristics { types: TypeLine::LAND.into(), ..Default::default() }
}

fn ability(text: &str, cost: ActivationCost, mana: bool) -> ActivatedAbilityDef {
    ActivatedAbilityDef {
        text: text.to_string(),
        cost,
        target_requirements: vec![],
        is_mana_ability: mana,
        is_loyalty_ability: false,
    }
}

fn register(reg: &mut CardRegistry, name: &str, chars: Characteristics, abilities: Vec<ActivatedAbilityDef>) -> CardId {
    let nm = reg.interner_mut().intern(name);
    let mut def = CardDefinition::new(nm, chars);
    for a in abilities {
        def = def.with_activated_ability(a);
    }
    reg.register(def)
}

fn register_walking_ballista_stub(reg: &mut CardRegistry, remove_count: u32) -> CardId {
    let cost = ActivationCost {
        remove_self_counter: Some((CounterKind::PlusOnePlusOne, remove_count)),
        ..ActivationCost::default()
    };
    register(
        reg,
        "Ballista Stub",
        creature_chars(0, 0),
        vec![ability(&format!("Remove {remove_count} +1/+1 counters: deal 1 damage."), cost, false)],
    )
}

fn state_put_with_card(s: &mut GameState, owner: PlayerId, zone: Zone, chars: Characteristics, card: CardId) -> ObjectId {
    let id = s.allocate_object_id();
    let mut obj = GameObject::new(id, owner, zone, card, chars);
    obj.controller = owner;
    s.objects.insert(obj);
    id
}

fn set_main_phase(s: &mut GameState) {
    s.step = Step::Main;
}

fn activations_of(actions: &[Action], obj: ObjectId) -> Vec<&Action> {
    actions.iter().filter(|a| matches!(a, Action::ActivateAbility { source, .. } if *source == obj)).collect()
}

#[test]
fn remove_counter_ability_is_unavailable_without_counters() {
    let mut reg = CardRegistry::new();
    let cid = register_walking_ballista_stub(&mut reg, 1);
    let mut s = GameState::new(2, 0);
    set_main_phase(&mut s);
    let mut chars = creature_chars(0, 0);
    chars.power = Some(PtValue::Fixed(3));
    chars.toughness = Some(PtValue::Fixed(3));
    let obj = state_put_with_card(&mut s, 0, Zone::Battlefield, chars, cid);
    s.objects.get_mut(obj).unwrap().status.summoning_sick = false;
    let actions = legal_actions(&s, &reg);
    assert!(
        activations_of(&actions, obj).is_empty(),
        "no remove-counter-cost activation should be legal with 0 counters"
    );
}

#[test]
fn remove_counter_ability_available_with_enough_counters() {
    let mut reg = CardRegistry::new();
    let cid = register_walking_ballista_stub(&mut reg, 1);
    let mut s = GameState::new(2, 0);
    set_main_phase(&mut s);
    let obj = state_put_with_card(&mut s, 0, Zone::Battlefield, creature_chars(0, 0), cid);
    s.objects.get_mut(obj).unwrap().status.summoning_sick = false;
    s.objects.get_mut(obj).unwrap().add_counters(CounterKind::PlusOnePlusOne, 2);
    let actions = legal_actions(&s, &reg);
    let found = activations_of(&actions, obj);
    let action = found.first().expect("activation should be legal with counters");
    let Action::ActivateAbility { additional_costs, .. } = action else { unreachable!() };
    assert!(additional_costs.iter().any(|c| matches!(c,
        AdditionalCostPayment::RemoveCounters { source, kind: CounterKind::PlusOnePlusOne, count: 1 } if *source == obj)));
}

#[test]
fn mana_ability_is_offered_at_instant_speed_and_follows_the_casts() {
    let mut reg = CardRegistry::new();
    let forest = register(&mut reg, "Test Forest", land_chars(), vec![ability("{T}: Add {G}.", ActivationCost::tap_only(), true)]);
    let mut s = GameState::new(2, 0);
    let land = state_put_with_card(&mut s, 0, Zone::Battlefield, land_chars(), forest);
    let actions = legal_actions(&s, &reg);
    assert!(matches!(actions[0], Action::PassPriority));
    assert!(matches!(actions[1], Action::Concede));
    assert_eq!(actions.len(), 3);
    match &actions[2] {
        Action::ActivateAbility { source, ability_index, mana_payment, x_value, additional_costs } => {
            assert_eq!(*source, land);
            assert_eq!(*ability_index, 0);
            assert!(mana_payment.assignments.is_empty());
            assert_eq!(*x_value, None);
            assert!(additional_costs.is_empty());
        }
        other => panic!("expected an activation, got {other:?}"),
    }
}

#[test]
fn tapped_source_cannot_pay_a_tap_cost() {
    let mut reg = CardRegistry::new();
    let forest = register(&mut reg, "Test Forest", land_chars(), vec![ability("{T}: Add {G}.", ActivationCost::tap_only(), true)]);
    let mut s = GameState::new(2, 0);
    let land = state_put_with_card(&mut s, 0, Zone::Battlefield, land_chars(), forest);
    s.objects.get_mut(land).unwrap().status.tapped = true;
    assert!(enumerate_activation_actions(&s, 0, &reg).is_empty());
}

#[test]
fn summoning_sick_creature_cannot_pay_a_tap_cost_but_a_land_can() {
    let mut reg = CardRegistry::new();
    let elf = register(&mut reg, "Test Elf", creature_chars(1, 1), vec![ability("{T}: Add {G}.", ActivationCost::tap_only(), true)]);
    let mut s = GameState::new(2, 0);
    let e = state_put_with_card(&mut s, 0, Zone::Battlefield, creature_chars(1, 1), elf);
    s.objects.get_mut(e).unwrap().status.summoning_sick = true;
    assert!(enumerate_activation_actions(&s, 0, &reg).is_empty());
    s.objects.get_mut(e).unwrap().status.summoning_sick = false;
    assert_eq!(enumerate_activation_actions(&s, 0, &reg).len(), 1);
}

#[test]
fn non_mana_ability_waits_for_sorcery_speed() {
    let mut reg = CardRegistry::new();
    let cost = ActivationCost { mana_cost: ManaCost::parse("{1}").unwrap(), ..ActivationCost::default() };
    let idol = register(&mut reg, "Test Idol", Characteristics { types: TypeLine::ARTIFACT.into(), ..Default::default() },
        vec![ability("{1}: Scry 1.", cost, false)]);
    let mut s = GameState::new(2, 0);
    let o = state_put_with_card(&mut s, 0, Zone::Battlefield, Characteristics::default(), idol);
    s.player_mut(0).mana_pool.add_mana(ManaColor::Red, 1, 0);
    assert!(enumerate_activation_actions(&s, 0, &reg).is_empty());
    set_main_phase(&mut s);
    let acts = enumerate_activation_actions(&s, 0, &reg);
    assert_eq!(acts.len(), 1);
    assert!(matches!(&acts[0], Action::ActivateAbility { source, mana_payment, .. }
        if *source == o && mana_payment.assignments.len() == 1));
    s.priority.player = 1;
    assert!(enumerate_activation_actions(&s, 1, &reg).is_empty());
}

#[test]
fn unaffordable_activation_is_not_offered() {
    let mut reg = CardRegistry::new();
    let cost = ActivationCost { mana_cost: ManaCost::parse("{2}").unwrap(), tap: true, ..ActivationCost::default() };
    let rock = register(&mut reg, "Test Rock", land_chars(), vec![ability("{2}, {T}: Draw a card.", cost, false)]);
    let mut s = GameState::new(2, 0);
    set_main_phase(&mut s);
    state_put_with_card(&mut s, 0, Zone::Battlefield, land_chars(), rock);
    s.player_mut(0).mana_pool.add_mana(ManaColor::Blue, 1, 0);
    assert!(enumerate_activation_actions(&s, 0, &reg).is_empty());
    s.player_mut(0).mana_pool.add_mana(ManaColor::Blue, 1, 0);
    assert_eq!(enumerate_activation_actions(&s, 0, &reg).len(), 1);
}

#[test]
fn generic_x_activated_ability_offers_each_affordable_x() {
    let mut reg = CardRegistry::new();
    let cost = ActivationCost { mana_cost: ManaCost::parse("{X}").unwrap(), ..ActivationCost::default() };
    let gauge = register(&mut reg, "Test Gauge", land_chars(), vec![ability("{X}: Mill X.", cost, true)]);
    let mut s = GameState::new(2, 0);
    state_put_with_card(&mut s, 0, Zone::Battlefield, land_chars(), gauge);
    s.player_mut(0).mana_pool.add_mana(ManaColor::Green, 2, 0);
    let xs: Vec<Option<u32>> = enumerate_activation_actions(&s, 0, &reg)
        .iter()
        .map(|a| match a {
            Action::ActivateAbility { x_value, .. } => *x_value,
            _ => panic!("expected an activation"),
        })
        .collect();
    assert!(xs.contains(&Some(0)) && xs.contains(&Some(1)) && xs.contains(&Some(2)));
    assert!(!xs.contains(&Some(3)));
}

#[test]
fn activations_come_by_source_then_ability_index() {
    let mut reg = CardRegistry::new();
    let two = register(&mut reg, "Test Twin", land_chars(), vec![
        ability("{T}: Add {G}.", ActivationCost::tap_only(), true),
        ability("{T}: Add {R}.", ActivationCost::tap_only(), true),
    ]);
    let mut s = GameState::new(2, 0);
    let a = state_put_with_card(&mut s, 0, Zone::Battlefield, land_chars(), two);
    let b = state_put_with_card(&mut s, 0, Zone::Battlefield, land_chars(), two);
    let _theirs = state_put_with_card(&mut s, 1, Zone::Battlefield, land_chars(), two);
    let keys: Vec<(ObjectId, usize)> = enumerate_activation_actions(&s, 0, &reg)
        .iter()
        .map(|x| match x {
            Action::ActivateAbility { source, ability_index, .. } => (*source, *ability_index),
            _ => panic!("expected an activation"),
        })
        .collect();
    assert_eq!(keys, vec![(a, 0), (a, 1), (b, 0), (b, 1)]);
}

#[test]
fn additional_costs_list_sacrifice_life_then_counters() {
    let cost = ActivationCost {
        sacrifice: true,
        life: 2,
        remove_self_counter: Some((CounterKind::Charge, 1)),
        add_self_counter: Some((CounterKind::Lore, 3)),
        ..ActivationCost::default()
    };
    assert_eq!(
        build_additional_costs(&cost, 7),
        vec![
            AdditionalCostPayment::Sacrifice(7),
            AdditionalCostPayment::PayLife(2),
            AdditionalCostPayment::RemoveCounters { source: 7, kind: CounterKind::Charge, count: 1 },
            AdditionalCostPayment::AddCounters { source: 7, kind: CounterKind::Lore, count: 3 },
        ]
    );
    assert!(build_additional_costs(&ActivationCost::default(), 7).is_empty());
}

#[test]
fn ability_is_activatable_checks_controller_and_zone() {
    let s = GameState::new(2, 0);
    let ab = ability("{T}: Add {G}.", ActivationCost::tap_only(), true);
    let mut obj = GameObject::new(1, 0, Zone::Battlefield, 1, land_chars());
    obj.controller = 0;
    assert!(ability_is_activatable(&s, &obj, &ab, 0, false, true));
    assert!(!ability_is_activatable(&s, &obj, &ab, 1, false, true));
    obj.zone = Zone::Hand(0);
    assert!(!ability_is_activatable(&s, &obj, &ab, 0, false, true));
}

#[test]
fn activation_label_uses_the_ability_text() {
    let mut reg = CardRegistry::new();
    let forest = register(&mut reg, "Test Forest", land_chars(), vec![
        ability("  {T}: Add {G}.  ", ActivationCost::tap_only(), true),
        ability("   ", ActivationCost::tap_only(), true),
    ]);
    let mut s = GameState::new(2, 0);
    let land = state_put_with_card(&mut s, 0, Zone::Battlefield, land_chars(), forest);
    s.objects.get_mut(land).unwrap().characteristics.name = reg.get(forest).unwrap().name;
    let acts = enumerate_activation_actions(&s, 0, &reg);
    assert_eq!(render_action(&acts[0], &s, &reg), "Test Forest — {T}: Add {G}.");
    assert_eq!(render_action(&acts[1], &s, &reg), "Activate Test Forest [ability 1]");
}

#[test]
fn long_ability_text_is_shortened() {
    let mut reg = CardRegistry::new();
    let long = format!("{}   {}", "a".repeat(62), "b".repeat(20));
    let id = register(&mut reg, "Test Relic", land_chars(), vec![ability(&long, ActivationCost::tap_only(), true)]);
    let mut s = GameState::new(2, 0);
    let o = state_put_with_card(&mut s, 0, Zone::Battlefield, land_chars(), id);
    s.objects.get_mut(o).unwrap().characteristics.name = reg.get(id).unwrap().name;
    let acts = enumerate_activation_actions(&s, 0, &reg);
    assert_eq!(render_action(&acts[0], &s, &reg), format!("Test Relic — {}…", "a".repeat(62)));
}
