use arcana_core::registry::CardRegistry;
use arcana_core::sample_cards::{
    register_all_phase1_samples, register_forest, register_grizzly_bears, register_lightning_bolt,
    register_mountain,
};
use arcana_core::types::PtValue;

#[test]
fn mountain_is_a_basic_land_with_one_mana_ability() {
    let mut r = CardRegistry::new();
    let id = register_mountain(&mut r);
    let def = r.get(id).unwrap();
    assert!(def.base_characteristics.types.is_land());
    assert!(def.base_characteristics.supertypes.is_basic());
    assert_eq!(def.activated_abilities.len(), 1);
    assert!(def.activated_abilities[0].is_mana_ability);
}

#[test]
fn bolt_has_any_target_requirement() {
    let mut r = CardRegistry::new();
    let id = register_lightning_bolt(&mut r);
    let def = r.get(id).unwrap();
    let sa = def.spell_ability.as_ref().expect("Bolt has a spell ability");
    assert_eq!(sa.target_requirements.len(), 1);
}

#[test]
fn grizzly_bears_is_2_2_creature() {
    let mut r = CardRegistry::new();
    let id = register_grizzly_bears(&mut r);
    let def = r.get(id).unwrap();
    assert!(def.base_characteristics.types.is_creature());
    assert_eq!(def.base_characteristics.power, Some(PtValue::Fixed(2)));
    assert_eq!(def.base_characteristics.toughness, Some(PtValue::Fixed(2)));
}

#[test]
fn register_all_phase1_samples_succeeds() {
    let mut r = CardRegistry::new();
    let ids = register_all_phase1_samples(&mut r);
    assert_ne!(ids.mountain, ids.forest);
    assert_ne!(ids.grizzly_bears, ids.lightning_bolt);
    assert_eq!(r.len(), 4);
}

#[test]
fn forest_taps_for_green_and_is_found_by_name() {
    let mut r = CardRegistry::new();
    let id = register_forest(&mut r);
    assert_eq!(r.card_id_by_name("Forest"), Some(id));
    let def = r.get(id).unwrap();
    assert_eq!(def.activated_abilities[0].text, "{T}: Add {G}.");
    assert!(def.activated_abilities[0].cost.tap);
    assert!(def.base_characteristics.subtypes.contains_name(r.interner(), "Forest"));
}
