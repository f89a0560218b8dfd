use arcana_core::events::{DamageTarget, MoveCause};
use arcana_core::mana::ManaCost;
use arcana_core::objects::{Characteristics, GameObject, ObjectId};
use arcana_core::replacement::{
    CounterKindFilter, CounterTarget, DieOutcome, ReplacementCondition, ReplacementDuration,
    ReplacementEffect, ReplacementEvent, ReplacementKind,
};
use arcana_core::state::GameState;
use arcana_core::targets::{ControllerConstraint, ObjectFilter, TargetFilter};
use arcana_core::types::{ColorSet, CounterKind, PlayerId, PtValue, TypeLine};
use arcana_core::zones::Zone;

fn creature_chars(p: i32, t: i32) -> Characteristics {
    Characteristics {
        mana_cost: Some(ManaCost::parse("{G}").unwrap()),
        colors: ColorSet::green(),
        types: TypeLine::CREATURE.into(),
        power: Some(PtValue::Fixed(p)),
        toughness: Some(PtValue::Fixed(t)),
        ..Default::default()
    }
}

fn red_creature_chars(p: i32, t: i32) -> Characteristics {
    Characteristics {
        mana_cost: Some(ManaCost::parse("{R}").unwrap()),
        colors: ColorSet::red(),
        types: TypeLine::CREATURE.into(),
        power: Some(PtValue::Fixed(p)),
        toughness: Some(PtValue::Fixed(t)),
        ..Default::default()
    }
}

fn put_creature(s: &mut GameState, owner: PlayerId, p: i32, t: i32) -> ObjectId {
    let id = s.allocate_object_id();
    let mut obj = GameObject::new(id, owner, Zone::Battlefield, 1, creature_chars(p, t));
    obj.controller = owner;
    s.objects.insert(obj);
    id
}

fn put_red_creature(s: &mut GameState, owner: PlayerId, p: i32, t: i32) -> ObjectId {
    let id = s.allocate_object_id();
    let mut obj = GameObject::new(id, owner, Zone::Battlefield, 1, red_creature_chars(p, t));
    obj.controller = owner;
    s.objects.insert(obj);
    id
}

fn base_effect(source: ObjectId, condition: ReplacementCondition, kind: ReplacementKind) -> ReplacementEffect {
    ReplacementEffect {
        source,
        id: 0,
        condition,
        kind,
        is_self_replacement: false,
        duration: ReplacementDuration::Permanent,
    }
}

fn damage_to_players() -> ReplacementCondition {
    ReplacementCondition::WouldDealDamage {
        source_filter: ObjectFilter::default(),
        target_filter: TargetFilter::Player,
    }
}

#[test]
fn prevent_all_damage_cancels() {
    let mut s = GameState::new(2, 0);
    s.add_replacement_effect(base_effect(0, damage_to_players(), ReplacementKind::PreventAllDamage));
    let out = s.replace_damage(99, DamageTarget::Player(0), 3);
    assert!(out.is_none());
}

#[test]
fn prevent_damage_up_to_reduces_amount() {
    let mut s = GameState::new(2, 0);
    s.add_replacement_effect(base_effect(0, damage_to_players(), ReplacementKind::PreventDamageUpTo(2)));
    let out = s.replace_damage(99, DamageTarget::Player(1), 5);
    assert_eq!(out, Some((99, DamageTarget::Player(1), 3)));
}

#[test]
fn prevent_damage_up_to_fully_absorbs_smaller_damage() {
    let mut s = GameState::new(2, 0);
    s.add_replacement_effect(base_effect(0, damage_to_players(), ReplacementKind::PreventDamageUpTo(5)));
    let out = s.replace_damage(99, DamageTarget::Player(1), 3);
    assert!(out.is_none());
}

#[test]
fn double_damage_applies() {
    let mut s = GameState::new(2, 0);
    let _src = put_red_creature(&mut s, 0, 3, 3);
    s.add_replacement_effect(base_effect(0, damage_to_players(), ReplacementKind::DoubleDamage));
    let out = s.replace_damage(99, DamageTarget::Player(1), 3);
    assert_eq!(out, Some((99, DamageTarget::Player(1), 6)));
}

#[test]
fn redirect_damage_target() {
    let mut s = GameState::new(2, 0);
    s.add_replacement_effect(base_effect(
        0,
        damage_to_players(),
        ReplacementKind::RedirectDamageTo(DamageTarget::Player(1)),
    ));
    let out = s.replace_damage(99, DamageTarget::Player(0), 3);
    assert_eq!(out, Some((99, DamageTarget::Player(1), 3)));
}

#[test]
fn damage_replacement_respects_source_filter() {
    let mut s = GameState::new(2, 0);
    let red_src = put_red_creature(&mut s, 0, 2, 2);
    let green_src = put_creature(&mut s, 0, 2, 2);
    s.add_replacement_effect(base_effect(
        0,
        ReplacementCondition::WouldDealDamage {
            source_filter: ObjectFilter::new().with_colors(ColorSet::red()),
            target_filter: TargetFilter::Player,
        },
        ReplacementKind::PreventAllDamage,
    ));

    assert!(s.replace_damage(red_src, DamageTarget::Player(1), 3).is_none());
    assert_eq!(
        s.replace_damage(green_src, DamageTarget::Player(1), 3),
        Some((green_src, DamageTarget::Player(1), 3))
    );
}

#[test]
fn damage_replacement_with_no_filters_passes_through() {
    let s = GameState::new(2, 0);
    let out = s.replace_damage(99, DamageTarget::Player(0), 4);
    assert_eq!(out, Some((99, DamageTarget::Player(0), 4)));
}

#[test]
fn two_prevent_up_to_effects_stack() {
    let mut s = GameState::new(2, 0);
    for n in [1, 2] {
        s.add_replacement_effect(base_effect(0, damage_to_players(), ReplacementKind::PreventDamageUpTo(n)));
    }
    let out = s.replace_damage(99, DamageTarget::Player(0), 5);
    assert_eq!(out.map(|t| t.2), Some(2));
}

#[test]
fn each_replacement_applies_at_most_once_per_event() {
    let mut s = GameState::new(2, 0);
    s.add_replacement_effect(base_effect(0, damage_to_players(), ReplacementKind::PreventDamageUpTo(1)));
    let out = s.replace_damage(99, DamageTarget::Player(0), 3);
    assert_eq!(out.map(|t| t.2), Some(2));
}

#[test]
fn self_replacement_applies_before_others_for_same_event() {
    let mut s = GameState::new(2, 0);
    let mut other = base_effect(0, damage_to_players(), ReplacementKind::PreventDamageUpTo(5));
    other.is_self_replacement = false;
    s.add_replacement_effect(other);

    let mut self_repl = base_effect(0, damage_to_players(), ReplacementKind::DoubleDamage);
    self_repl.is_self_replacement = true;
    s.add_replacement_effect(self_repl);

    let out = s.replace_damage(99, DamageTarget::Player(0), 3);
    assert_eq!(out.map(|t| t.2), Some(1));
}

#[test]
fn expire_end_of_turn_drops_only_eot_replacements() {
    let mut s = GameState::new(2, 0);
    s.add_replacement_effect(ReplacementEffect {
        duration: ReplacementDuration::EndOfTurn,
        ..base_effect(0, damage_to_players(), ReplacementKind::PreventAllDamage)
    });
    s.add_replacement_effect(base_effect(0, damage_to_players(), ReplacementKind::PreventDamageUpTo(1)));
    s.expire_end_of_turn_replacements();
    assert_eq!(s.replacement_effects.len(), 1);
}

#[test]
fn expire_from_source_drops_while_on_bf_effects() {
    let mut s = GameState::new(2, 0);
    let src_a = 10;
    let src_b = 20;
    s.add_replacement_effect(ReplacementEffect {
        source: src_a,
        duration: ReplacementDuration::WhileSourceOnBattlefield,
        ..base_effect(src_a, damage_to_players(), ReplacementKind::PreventAllDamage)
    });
    s.add_replacement_effect(ReplacementEffect {
        source: src_b,
        duration: ReplacementDuration::WhileSourceOnBattlefield,
        ..base_effect(src_b, damage_to_players(), ReplacementKind::PreventAllDamage)
    });
    s.expire_replacements_from_source(src_a);
    assert_eq!(s.replacement_effects.len(), 1);
    assert_eq!(s.replacement_effects[0].source, src_b);
}

#[test]
fn remove_replacement_effects_reports_how_many_left() {
    let mut s = GameState::new(2, 0);
    s.add_replacement_effect(base_effect(1, damage_to_players(), ReplacementKind::PreventAllDamage));
    s.add_replacement_effect(base_effect(2, damage_to_players(), ReplacementKind::DoubleDamage));
    s.add_replacement_effect(base_effect(1, damage_to_players(), ReplacementKind::PreventDamageUpTo(1)));
    let removed = s.remove_replacement_effects(|e| e.source == 1);
    assert_eq!(removed, 2);
    assert_eq!(s.replacement_effects.len(), 1);
    assert_eq!(s.replacement_effects[0].kind, ReplacementKind::DoubleDamage);
}

#[test]
fn collect_etb_enters_with_counters() {
    let mut s = GameState::new(2, 0);
    let c = put_creature(&mut s, 0, 2, 2);
    s.add_replacement_effect(base_effect(
        c,
        ReplacementCondition::WouldEnterBattlefield { object_filter: ObjectFilter::creature() },
        ReplacementKind::EtbWithCounters { kind: CounterKind::PlusOnePlusOne, count: 2 },
    ));
    let r = s.collect_etb_replacements(c);
    assert_eq!(r.additional_counters.len(), 1);
    assert_eq!(r.additional_counters[0].0, CounterKind::PlusOnePlusOne);
    assert_eq!(r.additional_counters[0].1, 2);
}

#[test]
fn collect_etb_enters_tapped() {
    let mut s = GameState::new(2, 0);
    let c = put_creature(&mut s, 0, 2, 2);
    s.add_replacement_effect(base_effect(
        c,
        ReplacementCondition::WouldEnterBattlefield { object_filter: ObjectFilter::default() },
        ReplacementKind::EtbTapped,
    ));
    let r = s.collect_etb_replacements(c);
    assert!(r.enter_tapped);
    assert!(r.additional_counters.is_empty());
}

#[test]
fn collect_etb_no_effects_returns_default() {
    let mut s = GameState::new(2, 0);
    let c = put_creature(&mut s, 0, 2, 2);
    let r = s.collect_etb_replacements(c);
    assert!(r.additional_counters.is_empty());
    assert!(!r.enter_tapped);
}

#[test]
fn exile_instead_of_dying_returns_exile_outcome() {
    let mut s = GameState::new(2, 0);
    let c = put_creature(&mut s, 0, 2, 2);
    s.add_replacement_effect(base_effect(
        0,
        ReplacementCondition::WouldDie { object_filter: ObjectFilter::creature() },
        ReplacementKind::ExileInsteadOfDying,
    ));
    assert_eq!(s.replace_die(c), DieOutcome::ExileInstead);
}

#[test]
fn die_without_matching_replacement_still_dies() {
    let mut s = GameState::new(2, 0);
    let c = put_creature(&mut s, 0, 2, 2);
    assert_eq!(s.replace_die(c), DieOutcome::StillDies);
}

#[test]
fn skip_draw_event_is_cancelled() {
    let mut s = GameState::new(2, 0);
    s.add_replacement_effect(base_effect(
        0,
        ReplacementCondition::WouldDrawCard { player: ControllerConstraint::Any },
        ReplacementKind::SkipDraw,
    ));
    let cond_matches = s.replacement_effects[0].condition.matches(
        &ReplacementEvent::DrawCard { player: 0 },
        0,
        &s,
    );
    assert!(cond_matches);
    assert_eq!(s.run_replacements(ReplacementEvent::DrawCard { player: 0 }), None);
}

fn install_global_enter_tapped(s: &mut GameState) {
    s.add_replacement_effect(base_effect(
        999,
        ReplacementCondition::WouldEnterBattlefield { object_filter: ObjectFilter::creature() },
        ReplacementKind::EtbTapped,
    ));
}

fn install_global_etb_counter(s: &mut GameState) {
    s.add_replacement_effect(base_effect(
        999,
        ReplacementCondition::WouldEnterBattlefield { object_filter: ObjectFilter::creature() },
        ReplacementKind::EtbWithCounters { kind: CounterKind::PlusOnePlusOne, count: 1 },
    ));
}

#[test]
fn etb_via_move_object_to_zone_applies_enter_tapped() {
    let mut s = GameState::new(2, 0);
    install_global_enter_tapped(&mut s);
    let c = s.allocate_object_id();
    s.objects.insert(GameObject::new(c, 0, Zone::Graveyard(0), 1, creature_chars(2, 2)));
    let new_id = s.move_object_to_zone(c, Zone::Battlefield, MoveCause::SpellResolution).unwrap();
    assert!(
        s.objects.get(new_id).unwrap().is_tapped(),
        "graveyard → battlefield path should honor global EtbTapped"
    );
    assert!(
        s.objects.get(new_id).unwrap().status.summoning_sick,
        "unified after_enter_battlefield sets summoning sickness"
    );
}

#[test]
fn etb_via_move_object_to_zone_applies_counters() {
    let mut s = GameState::new(2, 0);
    install_global_etb_counter(&mut s);
    let c = s.allocate_object_id();
    s.objects.insert(GameObject::new(c, 0, Zone::Hand(0), 1, creature_chars(2, 2)));
    let new_id = s.move_object_to_zone(c, Zone::Battlefield, MoveCause::SpellResolution).unwrap();
    assert_eq!(
        s.objects.get(new_id).unwrap().count_counters(CounterKind::PlusOnePlusOne),
        1,
        "global ETB-event counter replacement should add a counter"
    );
}

fn install_hardened_scales(s: &mut GameState) {
    s.add_replacement_effect(base_effect(
        999,
        ReplacementCondition::WouldPlaceCounters {
            object_filter: ObjectFilter::creature().controlled_by(ControllerConstraint::You),
            kinds: CounterKindFilter::Only(CounterKind::PlusOnePlusOne),
        },
        ReplacementKind::AddAdditionalCounters(1),
    ));
}

fn install_winding_constrictor(s: &mut GameState) {
    s.add_replacement_effect(base_effect(
        998,
        ReplacementCondition::WouldPlaceCounters {
            object_filter: ObjectFilter::creature().controlled_by(ControllerConstraint::You),
            kinds: CounterKindFilter::Any,
        },
        ReplacementKind::AddAdditionalCounters(1),
    ));
}

fn install_doubling_season(s: &mut GameState) {
    s.add_replacement_effect(base_effect(
        997,
        ReplacementCondition::WouldPlaceCounters {
            object_filter: ObjectFilter::default().controlled_by(ControllerConstraint::You),
            kinds: CounterKindFilter::Any,
        },
        ReplacementKind::MultiplyCounters(2),
    ));
}

#[test]
fn hardened_scales_adds_one_counter() {
    let mut s = GameState::new(2, 0);
    let c = put_creature(&mut s, 0, 2, 2);
    install_hardened_scales(&mut s);
    let out = s.place_counters(CounterTarget::Object(c), CounterKind::PlusOnePlusOne, 1);
    assert_eq!(out, Some((CounterKind::PlusOnePlusOne, 2)));
    assert_eq!(s.objects.get(c).unwrap().count_counters(CounterKind::PlusOnePlusOne), 2);
}

#[test]
fn doubling_season_doubles_counters() {
    let mut s = GameState::new(2, 0);
    let c = put_creature(&mut s, 0, 2, 2);
    install_doubling_season(&mut s);
    let out = s.place_counters(CounterTarget::Object(c), CounterKind::PlusOnePlusOne, 2);
    assert_eq!(out, Some((CounterKind::PlusOnePlusOne, 4)));
}

#[test]
fn hardened_scales_plus_winding_constrictor_both_fire() {
    let mut s = GameState::new(2, 0);
    let c = put_creature(&mut s, 0, 2, 2);
    install_hardened_scales(&mut s);
    install_winding_constrictor(&mut s);
    let out = s.place_counters(CounterTarget::Object(c), CounterKind::PlusOnePlusOne, 1);
    assert_eq!(out, Some((CounterKind::PlusOnePlusOne, 3)), "each replacement fires once per CR 614.5");
}

#[test]
fn hardened_scales_does_not_apply_to_loyalty_counters() {
    let mut s = GameState::new(2, 0);
    let pw = put_creature(&mut s, 0, 2, 2);
    install_hardened_scales(&mut s);
    let out = s.place_counters(CounterTarget::Object(pw), CounterKind::Loyalty, 3);
    assert_eq!(out, Some((CounterKind::Loyalty, 3)), "Hardened Scales only rewrites +1/+1 placements");
}

#[test]
fn hardened_scales_respects_controller_filter() {
    let mut s = GameState::new(2, 0);
    let enemy = put_creature(&mut s, 1, 2, 2);
    install_hardened_scales(&mut s);
    let out = s.place_counters(CounterTarget::Object(enemy), CounterKind::PlusOnePlusOne, 1);
    assert_eq!(
        out,
        Some((CounterKind::PlusOnePlusOne, 1)),
        "Hardened Scales should not apply to a creature you don't control"
    );
}

#[test]
fn hardened_scales_then_doubling_season_pins_id_order() {
    let mut s = GameState::new(2, 0);
    let c = put_creature(&mut s, 0, 2, 2);
    install_hardened_scales(&mut s);
    install_doubling_season(&mut s);
    let out = s.place_counters(CounterTarget::Object(c), CounterKind::PlusOnePlusOne, 1);
    assert_eq!(out, Some((CounterKind::PlusOnePlusOne, 4)));
}

#[test]
fn self_replacement_applies_before_others_on_counter_placement() {
    let mut s = GameState::new(2, 0);
    let c = put_creature(&mut s, 0, 2, 2);
    let mut other = base_effect(
        0,
        ReplacementCondition::WouldPlaceCounters {
            object_filter: ObjectFilter::default().controlled_by(ControllerConstraint::You),
            kinds: CounterKindFilter::Any,
        },
        ReplacementKind::AddAdditionalCounters(1),
    );
    other.is_self_replacement = false;
    s.add_replacement_effect(other);
    let mut selfrep = base_effect(
        0,
        ReplacementCondition::WouldPlaceCounters {
            object_filter: ObjectFilter::default().controlled_by(ControllerConstraint::You),
            kinds: CounterKindFilter::Any,
        },
        ReplacementKind::MultiplyCounters(3),
    );
    selfrep.is_self_replacement = true;
    s.add_replacement_effect(selfrep);
    let out = s.place_counters(CounterTarget::Object(c), CounterKind::PlusOnePlusOne, 1);
    assert_eq!(out, Some((CounterKind::PlusOnePlusOne, 4)));
}

#[test]
fn modular_plus_hardened_scales_yields_four_counters() {
    let mut s = GameState::new(2, 0);
    install_hardened_scales(&mut s);

    let c = s.allocate_object_id();
    s.objects.insert(GameObject::new(c, 0, Zone::Graveyard(0), 1, creature_chars(2, 2)));
    let mut e = base_effect(
        c,
        ReplacementCondition::WouldEnterBattlefield { object_filter: ObjectFilter::default() },
        ReplacementKind::EtbWithCounters { kind: CounterKind::PlusOnePlusOne, count: 3 },
    );
    e.is_self_replacement = true;
    s.add_replacement_effect(e);

    let new_id = s.move_object_to_zone(c, Zone::Battlefield, MoveCause::SpellResolution).unwrap();

    assert_eq!(s.objects.get(new_id).unwrap().count_counters(CounterKind::PlusOnePlusOne), 4);
}

fn install_replacement_source(s: &mut GameState, owner: PlayerId) -> ObjectId {
    put_creature(s, owner, 1, 1)
}

#[test]
fn damage_replacement_source_filter_resolves_you_against_replacement_controller() {
    let mut s = GameState::new(2, 0);
    let my_perm = install_replacement_source(&mut s, 0);
    let my_attacker = put_creature(&mut s, 0, 2, 2);
    let enemy_attacker = put_creature(&mut s, 1, 2, 2);
    s.add_replacement_effect(base_effect(
        my_perm,
        ReplacementCondition::WouldDealDamage {
            source_filter: ObjectFilter::creature().controlled_by(ControllerConstraint::You),
            target_filter: TargetFilter::Player,
        },
        ReplacementKind::PreventAllDamage,
    ));
    assert!(
        s.replace_damage(my_attacker, DamageTarget::Player(1), 3).is_none(),
        "my creature's damage to opponent should be prevented"
    );
    assert_eq!(
        s.replace_damage(enemy_attacker, DamageTarget::Player(0), 3),
        Some((enemy_attacker, DamageTarget::Player(0), 3)),
        "opponent's creature is not 'you control' — damage passes through"
    );
}

#[test]
fn etb_replacement_object_filter_resolves_you_against_replacement_controller() {
    let mut s = GameState::new(2, 0);
    let my_perm = install_replacement_source(&mut s, 0);
    s.add_replacement_effect(base_effect(
        my_perm,
        ReplacementCondition::WouldEnterBattlefield {
            object_filter: ObjectFilter::creature().controlled_by(ControllerConstraint::You),
        },
        ReplacementKind::EtbTapped,
    ));
    let enemy = s.allocate_object_id();
    s.objects.insert(GameObject::new(enemy, 1, Zone::Hand(1), 1, creature_chars(2, 2)));
    let new_id = s.move_object_to_zone(enemy, Zone::Battlefield, MoveCause::SpellResolution).unwrap();
    assert!(
        !s.objects.get(new_id).unwrap().is_tapped(),
        "opponent's creature is not 'you control' — should not enter tapped"
    );
}

#[test]
fn die_replacement_object_filter_resolves_you_against_replacement_controller() {
    let mut s = GameState::new(2, 0);
    let my_perm = install_replacement_source(&mut s, 0);
    s.add_replacement_effect(base_effect(
        my_perm,
        ReplacementCondition::WouldDie {
            object_filter: ObjectFilter::creature().controlled_by(ControllerConstraint::You),
        },
        ReplacementKind::ExileInsteadOfDying,
    ));
    let enemy = put_creature(&mut s, 1, 2, 2);
    assert_eq!(
        s.replace_die(enemy),
        DieOutcome::StillDies,
        "opponent's creature dying is not 'you control' — no exile swap"
    );
}

#[test]
fn missing_damage_source_passes_only_filters_without_source_conditions() {
    // A gone source passes a filter that sets no condition on types,
    // colors, controller, ...; a tapped-state condition is not checked.
    let mut s = GameState::new(2, 0);
    s.add_replacement_effect(base_effect(
        0,
        ReplacementCondition::WouldDealDamage {
            source_filter: ObjectFilter::new().tapped_only(),
            target_filter: TargetFilter::Player,
        },
        ReplacementKind::PreventAllDamage,
    ));
    assert!(s.replace_damage(99, DamageTarget::Player(1), 3).is_none());

    // A color condition cannot be met by a missing source.
    let mut s = GameState::new(2, 0);
    s.add_replacement_effect(base_effect(
        0,
        ReplacementCondition::WouldDealDamage {
            source_filter: ObjectFilter::new().with_colors(ColorSet::red()),
            target_filter: TargetFilter::Player,
        },
        ReplacementKind::PreventAllDamage,
    ));
    assert_eq!(s.replace_damage(99, DamageTarget::Player(1), 3), Some((99, DamageTarget::Player(1), 3)));
}

#[test]
fn die_replacements_are_taken_by_id_not_storage_order() {
    let mut s = GameState::new(2, 0);
    let c = put_creature(&mut s, 0, 2, 2);
    let die = || ReplacementCondition::WouldDie { object_filter: ObjectFilter::creature() };
    let mut exile = base_effect(0, die(), ReplacementKind::ExileInsteadOfDying);
    exile.id = 5;
    let mut regen = base_effect(0, die(), ReplacementKind::RegenerateShield);
    regen.id = 3;
    s.replacement_effects.push(exile);
    s.replacement_effects.push(regen);
    assert_eq!(s.replace_die(c), DieOutcome::Regenerated);
    // The used shield is gone; the exile effect stays.
    assert_eq!(s.replacement_effects.len(), 1);
    assert_eq!(s.replacement_effects[0].id, 5);
    assert_eq!(s.replace_die(c), DieOutcome::ExileInstead);
}

#[test]
fn etb_counters_are_listed_self_first_then_by_id() {
    let mut s = GameState::new(2, 0);
    let c = put_creature(&mut s, 0, 2, 2);
    let etb = || ReplacementCondition::WouldEnterBattlefield { object_filter: ObjectFilter::creature() };
    let mut a = base_effect(c, etb(), ReplacementKind::EtbWithCounters { kind: CounterKind::PlusOnePlusOne, count: 1 });
    a.id = 9;
    let mut b = base_effect(c, etb(), ReplacementKind::EtbWithCounters { kind: CounterKind::Charge, count: 2 });
    b.id = 4;
    let mut own = base_effect(c, etb(), ReplacementKind::EtbWithCounters { kind: CounterKind::Loyalty, count: 3 });
    own.id = 20;
    own.is_self_replacement = true;
    s.replacement_effects.push(a);
    s.replacement_effects.push(b);
    s.replacement_effects.push(own);
    let r = s.collect_etb_replacements(c);
    assert_eq!(
        r.additional_counters,
        vec![(CounterKind::Loyalty, 3), (CounterKind::Charge, 2), (CounterKind::PlusOnePlusOne, 1)]
    );
}
