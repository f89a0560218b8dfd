use arcana_core::mana::ManaCost;
use arcana_core::objects::{Characteristics, GameObject, ObjectArena, ObjectId, NULL_OBJECT_ID};
use arcana_core::types::{
    Color, ColorSet, CounterKind, PtValue, StringInterner, SubtypeSet, SupertypeSet, TypeLine,
};
use arcana_core::zones::{Zone, ZoneKind};
use std::collections::HashSet;

fn vanilla_creature(interner: &mut StringInterner, power: i32, toughness: i32) -> Characteristics {
    Characteristics {
        name: interner.intern("Test Bear"),
        mana_cost: Some(ManaCost::parse("{1}{G}").unwrap()),
        colors: ColorSet::green(),
        types: TypeLine::CREATURE.into(),
        subtypes: SubtypeSet::from_names(interner, &["Bear"]),
        supertypes: SupertypeSet::default(),
        power: Some(PtValue::Fixed(power)),
        toughness: Some(PtValue::Fixed(toughness)),
        loyalty: None,
        abilities_text: vec![],
        keywords: vec![],
        is_aura: false,
        is_fortification: false,
    }
}

fn make_creature(id: ObjectId, zone: Zone, power: i32, toughness: i32) -> GameObject {
    let mut interner = StringInterner::new();
    GameObject::new(id, 0, zone, 1, vanilla_creature(&mut interner, power, toughness))
}

#[test]
fn arena_starts_empty() {
    let a = ObjectArena::new();
    assert!(a.is_empty());
    assert_eq!(a.len(), 0);
}

#[test]
fn arena_insert_and_get() {
    let mut a = ObjectArena::new();
    let obj = make_creature(1, Zone::Battlefield, 2, 2);
    let id = a.insert(obj);
    assert_eq!(id, 1);
    assert_eq!(a.len(), 1);
    assert!(a.contains(1));
    assert_eq!(a.get(1).unwrap().id, 1);
    assert!(a.get(999).is_none());
}

#[test]
fn arena_remove_returns_object_and_decrements_len() {
    let mut a = ObjectArena::new();
    a.insert(make_creature(7, Zone::Battlefield, 2, 2));
    let removed = a.remove(7).expect("should exist");
    assert_eq!(removed.id, 7);
    assert!(!a.contains(7));
    assert_eq!(a.len(), 0);
    assert!(a.remove(7).is_none());
}

#[test]
fn arena_get_mut_allows_mutation() {
    let mut a = ObjectArena::new();
    a.insert(make_creature(1, Zone::Battlefield, 2, 2));
    a.get_mut(1).unwrap().tap();
    assert!(a.get(1).unwrap().is_tapped());
}

#[test]
fn arena_iter_returns_all() {
    let mut a = ObjectArena::new();
    a.insert(make_creature(1, Zone::Battlefield, 2, 2));
    a.insert(make_creature(2, Zone::Hand(0), 3, 3));
    a.insert(make_creature(3, Zone::Graveyard(0), 1, 1));
    let ids: HashSet<_> = a.iter().map(|o| o.id).collect();
    assert_eq!(ids, [1, 2, 3].iter().copied().collect());
}

#[test]
fn arena_zone_filters() {
    let mut a = ObjectArena::new();
    a.insert(make_creature(1, Zone::Battlefield, 2, 2));
    a.insert(make_creature(2, Zone::Battlefield, 3, 3));
    a.insert(make_creature(3, Zone::Hand(0), 1, 1));
    a.insert(make_creature(4, Zone::Graveyard(0), 0, 0));
    a.insert(make_creature(5, Zone::Graveyard(1), 0, 0));

    assert_eq!(a.count_in_zone(Zone::Battlefield), 2);
    assert_eq!(a.count_in_zone(Zone::Hand(0)), 1);

    let in_any_gy: Vec<_> = a.objects_in_zone_kind(ZoneKind::Graveyard).map(|o| o.id).collect();
    assert_eq!(in_any_gy.len(), 2);
}

#[test]
fn arena_controlled_by_filter() {
    let mut a = ObjectArena::new();
    let mut c1 = make_creature(1, Zone::Battlefield, 2, 2);
    c1.controller = 0;
    a.insert(c1);
    let mut c2 = make_creature(2, Zone::Battlefield, 3, 3);
    c2.controller = 1;
    a.insert(c2);

    let p0: Vec<_> = a.objects_controlled_by(0).map(|o| o.id).collect();
    let p1: Vec<_> = a.objects_controlled_by(1).map(|o| o.id).collect();
    assert_eq!(p0, vec![1]);
    assert_eq!(p1, vec![2]);
}

#[test]
fn arena_ids_in_zone_sorted_is_deterministic() {
    let mut a = ObjectArena::new();
    a.insert(make_creature(3, Zone::Battlefield, 2, 2));
    a.insert(make_creature(1, Zone::Battlefield, 2, 2));
    a.insert(make_creature(2, Zone::Battlefield, 2, 2));
    assert_eq!(a.ids_in_zone_sorted(Zone::Battlefield), vec![1, 2, 3]);
}

#[test]
fn arena_clone_independence() {
    let mut a = ObjectArena::new();
    a.insert(make_creature(1, Zone::Battlefield, 2, 2));
    let mut b = a.clone();
    b.get_mut(1).unwrap().tap();
    assert!(b.get(1).unwrap().is_tapped());
    assert!(!a.get(1).unwrap().is_tapped());
}

#[test]
fn arena_objects_in_zone_lists_only_that_zone() {
    let mut a = ObjectArena::new();
    a.insert(make_creature(4, Zone::Hand(1), 1, 1));
    a.insert(make_creature(2, Zone::Battlefield, 1, 1));
    a.insert(make_creature(9, Zone::Hand(1), 1, 1));
    let ids: Vec<_> = a.objects_in_zone(Zone::Hand(1)).map(|o| o.id).collect();
    assert_eq!(ids, vec![4, 9]);
    assert_eq!(a.ids(), vec![2, 4, 9]);
}

#[test]
fn tap_untap_returns_whether_state_changed() {
    let mut obj = make_creature(1, Zone::Battlefield, 2, 2);
    assert!(!obj.is_tapped());
    assert!(obj.tap());
    assert!(!obj.tap());
    assert!(obj.is_tapped());

    assert!(obj.untap());
    assert!(!obj.untap());
    assert!(!obj.is_tapped());
}

#[test]
fn add_counters_accumulates() {
    let mut obj = make_creature(1, Zone::Battlefield, 2, 2);
    obj.add_counters(CounterKind::PlusOnePlusOne, 1);
    obj.add_counters(CounterKind::PlusOnePlusOne, 2);
    assert_eq!(obj.count_counters(CounterKind::PlusOnePlusOne), 3);
    assert!(obj.has_counter(CounterKind::PlusOnePlusOne));
}

#[test]
fn add_counters_zero_is_noop() {
    let mut obj = make_creature(1, Zone::Battlefield, 2, 2);
    obj.add_counters(CounterKind::Loyalty, 0);
    assert!(!obj.has_counter(CounterKind::Loyalty));
}

#[test]
fn remove_counters_returns_actual_removed() {
    let mut obj = make_creature(1, Zone::Battlefield, 2, 2);
    obj.add_counters(CounterKind::PlusOnePlusOne, 3);
    assert_eq!(obj.remove_counters(CounterKind::PlusOnePlusOne, 2), 2);
    assert_eq!(obj.count_counters(CounterKind::PlusOnePlusOne), 1);

    assert_eq!(obj.remove_counters(CounterKind::PlusOnePlusOne, 99), 1);
    assert_eq!(obj.count_counters(CounterKind::PlusOnePlusOne), 0);
    assert!(!obj.has_counter(CounterKind::PlusOnePlusOne));

    assert_eq!(obj.remove_counters(CounterKind::PlusOnePlusOne, 1), 0);
}

#[test]
fn annihilate_pt_counters_pairs_them_up() {
    let mut obj = make_creature(1, Zone::Battlefield, 2, 2);
    obj.add_counters(CounterKind::PlusOnePlusOne, 3);
    obj.add_counters(CounterKind::MinusOneMinusOne, 5);
    let annihilated = obj.annihilate_pt_counters();
    assert_eq!(annihilated, 3);
    assert_eq!(obj.count_counters(CounterKind::PlusOnePlusOne), 0);
    assert_eq!(obj.count_counters(CounterKind::MinusOneMinusOne), 2);
}

#[test]
fn annihilate_pt_counters_no_op_when_one_side_zero() {
    let mut obj = make_creature(1, Zone::Battlefield, 2, 2);
    obj.add_counters(CounterKind::PlusOnePlusOne, 2);
    assert_eq!(obj.annihilate_pt_counters(), 0);
    assert_eq!(obj.count_counters(CounterKind::PlusOnePlusOne), 2);
}

#[test]
fn mark_damage_accumulates_and_saturates() {
    let mut obj = make_creature(1, Zone::Battlefield, 2, 2);
    obj.mark_damage(2);
    obj.mark_damage(3);
    assert_eq!(obj.damage_marked, 5);
    obj.mark_damage(u32::MAX);
    assert_eq!(obj.damage_marked, u32::MAX);
}

#[test]
fn clear_damage_resets() {
    let mut obj = make_creature(1, Zone::Battlefield, 2, 2);
    obj.mark_damage(5);
    obj.clear_damage();
    assert_eq!(obj.damage_marked, 0);
}

#[test]
fn raw_pt_with_counters_base_values() {
    let obj = make_creature(1, Zone::Battlefield, 3, 4);
    assert_eq!(obj.raw_power_with_counters(None), Some(3));
    assert_eq!(obj.raw_toughness_with_counters(None), Some(4));
}

#[test]
fn raw_pt_with_counters_with_plus_counters() {
    let mut obj = make_creature(1, Zone::Battlefield, 2, 2);
    obj.add_counters(CounterKind::PlusOnePlusOne, 3);
    assert_eq!(obj.raw_power_with_counters(None), Some(5));
    assert_eq!(obj.raw_toughness_with_counters(None), Some(5));
}

#[test]
fn raw_pt_with_counters_with_minus_counters() {
    let mut obj = make_creature(1, Zone::Battlefield, 2, 2);
    obj.add_counters(CounterKind::MinusOneMinusOne, 1);
    assert_eq!(obj.raw_power_with_counters(None), Some(1));
    assert_eq!(obj.raw_toughness_with_counters(None), Some(1));
}

#[test]
fn raw_pt_with_counters_with_mixed_counters() {
    let mut obj = make_creature(1, Zone::Battlefield, 2, 2);
    obj.add_counters(CounterKind::PlusOnePlusOne, 3);
    obj.add_counters(CounterKind::MinusOneMinusOne, 1);
    assert_eq!(obj.raw_power_with_counters(None), Some(4));
    assert_eq!(obj.raw_toughness_with_counters(None), Some(4));
}

#[test]
fn raw_pt_with_counters_none_for_non_creature() {
    let chars = Characteristics { types: TypeLine::SORCERY.into(), ..Default::default() };
    let obj = GameObject::new(1, 0, Zone::Hand(0), 1, chars);
    assert_eq!(obj.raw_power_with_counters(None), None);
    assert_eq!(obj.raw_toughness_with_counters(None), None);
}

#[test]
fn raw_pt_with_counters_star_requires_star_value() {
    let chars = Characteristics {
        types: TypeLine::CREATURE.into(),
        power: Some(PtValue::Star),
        toughness: Some(PtValue::StarPlus(1)),
        ..Default::default()
    };
    let obj = GameObject::new(1, 0, Zone::Battlefield, 1, chars);
    assert_eq!(obj.raw_power_with_counters(None), None);
    assert_eq!(obj.raw_power_with_counters(Some(7)), Some(7));
    assert_eq!(obj.raw_toughness_with_counters(Some(7)), Some(8));
}

#[test]
fn raw_lethal_damage_below_toughness_is_not_lethal() {
    let mut obj = make_creature(1, Zone::Battlefield, 3, 3);
    obj.mark_damage(2);
    assert!(!obj.has_raw_lethal_damage());
}

#[test]
fn raw_lethal_damage_equal_to_toughness_is_lethal() {
    let mut obj = make_creature(1, Zone::Battlefield, 3, 3);
    obj.mark_damage(3);
    assert!(obj.has_raw_lethal_damage());
}

#[test]
fn raw_lethal_damage_accounts_for_plus_counters() {
    let mut obj = make_creature(1, Zone::Battlefield, 2, 2);
    obj.add_counters(CounterKind::PlusOnePlusOne, 2);
    obj.mark_damage(3);
    assert!(!obj.has_raw_lethal_damage());
    obj.mark_damage(1);
    assert!(obj.has_raw_lethal_damage());
}

#[test]
fn raw_lethal_damage_false_when_toughness_zero_or_less() {
    let mut obj = make_creature(1, Zone::Battlefield, 1, 1);
    obj.add_counters(CounterKind::MinusOneMinusOne, 1);
    obj.mark_damage(1);
    assert!(!obj.has_raw_lethal_damage());
}

#[test]
fn attach_and_detach() {
    let mut aura = make_creature(1, Zone::Battlefield, 0, 0);
    assert!(!aura.is_attached());
    aura.attach_to(42);
    assert_eq!(aura.attached_to, Some(42));
    assert!(aura.is_attached());
    aura.detach();
    assert!(!aura.is_attached());
}

#[test]
fn reset_on_zone_change_clears_transient_fields() {
    let mut obj = make_creature(1, Zone::Battlefield, 2, 2);
    obj.add_counters(CounterKind::PlusOnePlusOne, 3);
    obj.mark_damage(2);
    obj.tap();
    obj.attach_to(99);
    obj.reset_on_zone_change();

    assert_eq!(obj.count_counters(CounterKind::PlusOnePlusOne), 0);
    assert_eq!(obj.damage_marked, 0);
    assert!(!obj.is_tapped());
    assert!(!obj.is_attached());
}

#[test]
fn characteristics_type_queries() {
    let mut interner = StringInterner::new();
    let c = vanilla_creature(&mut interner, 2, 2);
    assert!(c.is_creature());
    assert!(c.is_permanent());
    assert!(!c.is_spell());
    assert!(!c.is_land());

    let inst = Characteristics { types: TypeLine::INSTANT.into(), ..Default::default() };
    assert!(inst.is_instant());
    assert!(inst.is_spell());
    assert!(!inst.is_permanent());
}

#[test]
fn characteristics_mana_value() {
    let mut interner = StringInterner::new();
    let c = vanilla_creature(&mut interner, 2, 2);
    assert_eq!(c.mana_value(), 2);

    let no_cost = Characteristics::default();
    assert_eq!(no_cost.mana_value(), 0);
}

#[test]
fn characteristics_subtypes_populated() {
    let mut interner = StringInterner::new();
    let c = vanilla_creature(&mut interner, 2, 2);
    assert!(c.subtypes.contains_name(&interner, "Bear"));
    assert!(!c.subtypes.contains_name(&interner, "Horror"));
}

#[test]
fn characteristics_colors_populated() {
    let mut interner = StringInterner::new();
    let c = vanilla_creature(&mut interner, 2, 2);
    assert!(c.colors.contains(Color::Green));
    assert!(!c.colors.contains(Color::Red));
}

#[test]
fn null_object_id_is_never_a_live_id() {
    let a = ObjectArena::new();
    assert!(!a.contains(NULL_OBJECT_ID));
}
