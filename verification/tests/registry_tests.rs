use arcana_core::mana::ManaCost;
use arcana_core::objects::Characteristics;
use arcana_core::registry::{
    build_deck, effective_target_requirements, ActivationCost, CardDefinition, CardRegistry, EntersWithSpec,
    ModalSpec, ModeChoice, ModeClause, SpellAbilityDef,
};
use arcana_core::targets::{TargetFilter, TargetRequirement};
use arcana_core::types::{CardId, ColorSet, CounterKind, PtValue, TypeLine};

fn vanilla(name: &str, registry: &mut CardRegistry, p: i32, t: i32) -> CardId {
    let interned = registry.interner_mut().intern(name);
    registry.register(CardDefinition::new(
        interned,
        Characteristics {
            mana_cost: Some(ManaCost::parse("{1}{G}").unwrap()),
            colors: ColorSet::green(),
            types: TypeLine::CREATURE.into(),
            power: Some(PtValue::Fixed(p)),
            toughness: Some(PtValue::Fixed(t)),
            ..Default::default()
        },
    ))
}

#[test]
fn new_registry_allocates_ids_monotonically() {
    let mut r = CardRegistry::new();
    let a = vanilla("A", &mut r, 1, 1);
    let b = vanilla("B", &mut r, 2, 2);
    assert_eq!(a, 1);
    assert_eq!(b, 2);
    assert_eq!(r.len(), 2);
}

#[test]
fn lookup_by_str_roundtrips() {
    let mut r = CardRegistry::new();
    let a = vanilla("Grizzly Bears", &mut r, 2, 2);
    assert_eq!(r.card_id_by_name("Grizzly Bears"), Some(a));
    let def = r.get_by_str("Grizzly Bears").unwrap();
    assert_eq!(def.base_characteristics.power, Some(PtValue::Fixed(2)));
    assert!(r.get_by_str("Nonexistent").is_none());
}

#[test]
fn unregistered_sentinel_is_zero() {
    let r = CardRegistry::new();
    assert!(!r.contains(0));
    assert!(r.is_empty());
}

#[test]
fn with_spell_ability_records_target_requirements() {
    let mut r = CardRegistry::new();
    let name = r.interner_mut().intern("Bolt");
    let def = CardDefinition::new(
        name,
        Characteristics {
            mana_cost: Some(ManaCost::parse("{R}").unwrap()),
            colors: ColorSet::red(),
            types: TypeLine::INSTANT.into(),
            ..Default::default()
        },
    )
    .with_spell_ability(SpellAbilityDef {
        text: "Bolt deals 3 to any target".into(),
        target_requirements: vec![TargetRequirement::any_target()],
        modal: None,
    });
    let id = r.register(def);
    let looked_up = r.get(id).unwrap();
    assert_eq!(looked_up.spell_ability.as_ref().unwrap().target_requirements.len(), 1);
}

#[test]
fn build_deck_honors_counts_and_ordering() {
    let mut r = CardRegistry::new();
    let _a = vanilla("BearA", &mut r, 2, 2);
    let _b = vanilla("BearB", &mut r, 3, 3);
    let deck = build_deck(&[("BearA", 3), ("BearB", 2)], &r);
    assert_eq!(deck.len(), 5);
    assert_eq!(deck[0], deck[1]);
    assert_eq!(deck[0], deck[2]);
    assert_ne!(deck[2], deck[3]);
}

#[test]
fn activation_cost_helpers() {
    let tap = ActivationCost::tap_only();
    assert!(tap.tap);
    assert_eq!(tap.life, 0);
    assert!(!tap.sacrifice);

    let free = ActivationCost::free();
    assert!(!free.tap);
}

#[test]
fn get_by_name_and_iter_follow_registration_order() {
    let mut r = CardRegistry::new();
    let a = vanilla("Alpha", &mut r, 1, 1);
    let b = vanilla("Beta", &mut r, 2, 2);
    let beta = r.interner().lookup("Beta").unwrap();
    assert_eq!(r.get_by_name(beta).unwrap().name, beta);
    let listed: Vec<_> = r.iter().map(|(id, d)| (id, d.name)).collect();
    assert_eq!(listed.len(), 2);
    assert_eq!(listed[0].0, a);
    assert_eq!(listed[1], (b, beta));
    assert!(r.get(3).is_none());
    assert_eq!(r.card_id_by_name("Gamma"), None);
}

#[test]
fn enters_with_and_activated_abilities_accumulate() {
    let mut r = CardRegistry::new();
    let name = r.interner_mut().intern("Ballista");
    let def = CardDefinition::new(name, Characteristics::default())
        .with_enters_with(EntersWithSpec::CountersFromX { kind: CounterKind::PlusOnePlusOne })
        .with_enters_with(EntersWithSpec::Tapped);
    assert_eq!(def.enters_with.len(), 2);
    assert_eq!(def.enters_with[1], EntersWithSpec::Tapped);
    assert!(def.activated_abilities.is_empty());
}

#[test]
fn modal_targets_follow_chosen_clauses_in_card_order() {
    let any = TargetRequirement::any_target();
    let player = TargetRequirement { filter: TargetFilter::Player, min_targets: 1, max_targets: 1 };
    let ability = SpellAbilityDef {
        text: "Choose one or both".into(),
        target_requirements: vec![],
        modal: Some(ModalSpec {
            min_modes: 1,
            max_modes: 2,
            clauses: vec![
                ModeClause { text: "deal 2".into(), target_requirements: vec![any] },
                ModeClause { text: "draw".into(), target_requirements: vec![] },
                ModeClause { text: "discard".into(), target_requirements: vec![player] },
            ],
        }),
    };
    let both = effective_target_requirements(&ability, &[ModeChoice { mode_indices: vec![0, 2] }]);
    assert_eq!(both, vec![any, player]);
    let draw_only = effective_target_requirements(&ability, &[ModeChoice { mode_indices: vec![1] }]);
    assert!(draw_only.is_empty());
    assert!(effective_target_requirements(&ability, &[]).is_empty());

    let flat = SpellAbilityDef { text: "Bolt".into(), target_requirements: vec![any], modal: None };
    assert_eq!(effective_target_requirements(&flat, &[]), vec![any]);
}
