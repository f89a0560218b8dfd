use arcana_core::events::{DamageTarget, GameEvent, LoseReason, MoveCause};
use arcana_core::layers::{ContinuousEffect, ContinuousEffectKind, Duration, Layer};
use arcana_core::mana::ManaCost;
use arcana_core::objects::{Characteristics, GameObject, ObjectId};
use arcana_core::sba::{
    apply_state_based_actions, has_pending_state_based_actions, pending_attachment_illegal,
    pending_aura_illegal, pending_creature_to_graveyard, pending_fortification_illegal,
    pending_legend_conflict, pending_planeswalker_to_graveyard, pending_player_loss,
    pending_pt_annihilation, pending_token_cease,
};
use arcana_core::state::{ChoiceContext, ChoiceKind, GameResult, GameState};
use arcana_core::types::{
    ColorSet, CounterKind, KeywordAbility, PlayerId, PtValue, SmallString, SupertypeSet, TypeLine,
};
use arcana_core::zones::Zone;

fn creature_chars(p: i32, t: i32) -> Characteristics {
    Characteristics {
        mana_cost: Some(ManaCost::parse("{G}").unwrap()),
        colors: ColorSet::green(),
        types: TypeLine::CREATURE.into(),
        power: Some(PtValue::Fixed(p)),
        toughness: Some(PtValue::Fixed(t)),
        ..Default::default()
    }
}

fn put_creature(s: &mut GameState, owner: PlayerId, zone: Zone, p: i32, t: i32) -> ObjectId {
    let id = s.allocate_object_id();
    let mut obj = GameObject::new(id, owner, zone, 1, creature_chars(p, t));
    obj.controller = owner;
    s.objects.insert(obj);
    id
}

fn put_pw(s: &mut GameState, owner: PlayerId, loyalty: i32) -> ObjectId {
    let id = s.allocate_object_id();
    let chars = Characteristics {
        types: TypeLine::PLANESWALKER.into(),
        loyalty: Some(loyalty),
        ..Default::default()
    };
    let mut obj = GameObject::new(id, owner, Zone::Battlefield, 1, chars);
    obj.controller = owner;
    s.objects.insert(obj);
    id
}

fn put_legendary_creature(s: &mut GameState, owner: PlayerId, name: SmallString) -> ObjectId {
    let id = s.allocate_object_id();
    let chars = Characteristics {
        name,
        types: TypeLine::CREATURE.into(),
        supertypes: SupertypeSet::new().with(SupertypeSet::LEGENDARY),
        power: Some(PtValue::Fixed(3)),
        toughness: Some(PtValue::Fixed(3)),
        ..Default::default()
    };
    let mut obj = GameObject::new(id, owner, Zone::Battlefield, 1, chars);
    obj.controller = owner;
    s.objects.insert(obj);
    id
}

#[test]
fn life_zero_loses_the_game() {
    let mut s = GameState::new(2, 0);
    s.player_mut(0).life = 0;
    apply_state_based_actions(&mut s);
    assert!(s.player(0).has_lost);
    assert!(s.event_log.iter().any(|e| matches!(
        e,
        GameEvent::PlayerLoses { player: 0, reason: LoseReason::LifeZero }
    )));
}

#[test]
fn negative_life_also_loses() {
    let mut s = GameState::new(2, 0);
    s.player_mut(0).life = -3;
    apply_state_based_actions(&mut s);
    assert!(s.player(0).has_lost);
}

#[test]
fn decked_player_loses() {
    let mut s = GameState::new(2, 0);
    s.player_mut(0).has_drawn_from_empty_library = true;
    apply_state_based_actions(&mut s);
    assert!(s
        .event_log
        .iter()
        .any(|e| matches!(e, GameEvent::PlayerLoses { reason: LoseReason::Decked, .. })));
}

#[test]
fn poison_ten_loses() {
    let mut s = GameState::new(2, 0);
    s.player_mut(0).poison_counters = 10;
    apply_state_based_actions(&mut s);
    assert!(s.player(0).has_lost);
    assert!(s
        .event_log
        .iter()
        .any(|e| matches!(e, GameEvent::PlayerLoses { reason: LoseReason::PoisonCounters, .. })));
}

#[test]
fn poison_nine_does_not_lose() {
    let mut s = GameState::new(2, 0);
    s.player_mut(0).poison_counters = 9;
    apply_state_based_actions(&mut s);
    assert!(!s.player(0).has_lost);
}

#[test]
fn creature_with_zero_toughness_dies() {
    let mut s = GameState::new(2, 0);
    let c = put_creature(&mut s, 0, Zone::Battlefield, 2, 1);
    s.objects.get_mut(c).unwrap().add_counters(CounterKind::MinusOneMinusOne, 1);
    apply_state_based_actions(&mut s);
    assert_eq!(s.zone_count(Zone::Graveyard(0)), 1);
    assert_eq!(s.zone_count(Zone::Battlefield), 0);
    assert!(s
        .event_log
        .iter()
        .any(|e| matches!(e, GameEvent::Dies { object_id } if *object_id == c)));
}

#[test]
fn creature_with_lethal_damage_dies() {
    let mut s = GameState::new(2, 0);
    let c = put_creature(&mut s, 0, Zone::Battlefield, 2, 2);
    s.objects.get_mut(c).unwrap().mark_damage(2);
    apply_state_based_actions(&mut s);
    assert_eq!(s.zone_count(Zone::Graveyard(0)), 1);
    assert!(s
        .event_log
        .iter()
        .any(|e| matches!(e, GameEvent::Dies { object_id } if *object_id == c)));
}

#[test]
fn creature_below_lethal_survives() {
    let mut s = GameState::new(2, 0);
    let c = put_creature(&mut s, 0, Zone::Battlefield, 2, 3);
    s.objects.get_mut(c).unwrap().mark_damage(2);
    apply_state_based_actions(&mut s);
    assert_eq!(s.objects.get(c).unwrap().zone, Zone::Battlefield);
}

#[test]
fn indestructible_survives_lethal_damage() {
    let mut s = GameState::new(2, 0);
    let c = put_creature(&mut s, 0, Zone::Battlefield, 2, 2);
    s.objects.get_mut(c).unwrap().characteristics.keywords.push(KeywordAbility::Indestructible);
    s.objects.get_mut(c).unwrap().mark_damage(20);
    apply_state_based_actions(&mut s);
    assert_eq!(s.objects.get(c).unwrap().zone, Zone::Battlefield);
}

#[test]
fn indestructible_survives_deathtouch_damage() {
    let mut s = GameState::new(2, 0);
    let c = put_creature(&mut s, 0, Zone::Battlefield, 2, 2);
    s.objects.get_mut(c).unwrap().characteristics.keywords.push(KeywordAbility::Indestructible);
    s.objects.get_mut(c).unwrap().mark_damage(1);
    s.objects.get_mut(c).unwrap().has_deathtouch_damage = true;
    apply_state_based_actions(&mut s);
    assert_eq!(s.objects.get(c).unwrap().zone, Zone::Battlefield);
}

#[test]
fn indestructible_still_dies_to_zero_toughness() {
    let mut s = GameState::new(2, 0);
    let c = put_creature(&mut s, 0, Zone::Battlefield, 2, 2);
    s.objects.get_mut(c).unwrap().characteristics.keywords.push(KeywordAbility::Indestructible);
    s.add_continuous_effect(ContinuousEffect {
        source: 0,
        layer: Layer::L7cPTModifying,
        timestamp: 0,
        duration: Duration::Permanent,
        dependency: None,
        kind: ContinuousEffectKind::PumpTarget { target: c, power: 0, toughness: -2 },
    });
    apply_state_based_actions(&mut s);
    assert_eq!(s.zone_count(Zone::Graveyard(0)), 1);
    assert_eq!(s.zone_count(Zone::Battlefield), 0);
}

#[test]
fn deathtouch_damage_kills_a_large_creature() {
    let mut s = GameState::new(2, 0);
    let c = put_creature(&mut s, 0, Zone::Battlefield, 5, 5);
    s.objects.get_mut(c).unwrap().mark_damage(1);
    s.objects.get_mut(c).unwrap().has_deathtouch_damage = true;
    assert!(pending_creature_to_graveyard(&s));
    apply_state_based_actions(&mut s);
    assert_eq!(s.zone_count(Zone::Graveyard(0)), 1);
}

#[test]
fn planeswalker_zero_loyalty_goes_to_graveyard() {
    let mut s = GameState::new(2, 0);
    let pw = put_pw(&mut s, 0, 0);
    assert!(pending_planeswalker_to_graveyard(&s));
    apply_state_based_actions(&mut s);
    assert_eq!(s.zone_count(Zone::Graveyard(0)), 1);
    assert!(s
        .event_log
        .iter()
        .any(|e| matches!(e, GameEvent::Dies { object_id } if *object_id == pw)));
}

#[test]
fn planeswalker_with_loyalty_counters_survives() {
    let mut s = GameState::new(2, 0);
    let pw = put_pw(&mut s, 0, 0);
    s.objects.get_mut(pw).unwrap().add_counters(CounterKind::Loyalty, 3);
    apply_state_based_actions(&mut s);
    assert_eq!(s.objects.get(pw).unwrap().zone, Zone::Battlefield);
}

#[test]
fn legend_rule_pushes_pick_cards_choice() {
    let mut s = GameState::new(2, 0);
    let name = s.players[0].id as SmallString;
    let first = put_legendary_creature(&mut s, 0, name);
    let second = put_legendary_creature(&mut s, 0, name);
    let third = put_legendary_creature(&mut s, 0, name);

    assert!(pending_legend_conflict(&s));
    apply_state_based_actions(&mut s);
    let pc = s.pending_choice.as_ref().expect("legend rule should have pushed a choice");
    assert_eq!(pc.choosing_player, 0);
    assert!(matches!(pc.context, ChoiceContext::Sba));
    match &pc.kind {
        ChoiceKind::PickCards { candidates, min, max } => {
            assert_eq!(*min, 1);
            assert_eq!(*max, 1);
            assert_eq!(candidates, &vec![first, second, third]);
        }
        other => panic!("expected PickCards, got {other:?}"),
    }
    assert_eq!(s.objects.get(first).unwrap().zone, Zone::Battlefield);
    assert_eq!(s.objects.get(second).unwrap().zone, Zone::Battlefield);
    assert_eq!(s.objects.get(third).unwrap().zone, Zone::Battlefield);
}

#[test]
fn legend_rule_ignores_different_names() {
    let mut s = GameState::new(2, 0);
    let name_a = 1 as SmallString;
    let name_b = 2 as SmallString;
    let a = put_legendary_creature(&mut s, 0, name_a);
    let b = put_legendary_creature(&mut s, 0, name_b);
    apply_state_based_actions(&mut s);
    assert_eq!(s.objects.get(a).unwrap().zone, Zone::Battlefield);
    assert_eq!(s.objects.get(b).unwrap().zone, Zone::Battlefield);
}

#[test]
fn legend_rule_ignores_different_controllers() {
    let mut s = GameState::new(2, 0);
    let name = 5 as SmallString;
    let mine = put_legendary_creature(&mut s, 0, name);
    let theirs = put_legendary_creature(&mut s, 1, name);
    apply_state_based_actions(&mut s);
    assert_eq!(s.objects.get(mine).unwrap().zone, Zone::Battlefield);
    assert_eq!(s.objects.get(theirs).unwrap().zone, Zone::Battlefield);
}

#[test]
fn annihilation_removes_matching_pairs() {
    let mut s = GameState::new(2, 0);
    let c = put_creature(&mut s, 0, Zone::Battlefield, 2, 2);
    s.objects.get_mut(c).unwrap().add_counters(CounterKind::PlusOnePlusOne, 3);
    s.objects.get_mut(c).unwrap().add_counters(CounterKind::MinusOneMinusOne, 2);
    assert!(pending_pt_annihilation(&s));
    apply_state_based_actions(&mut s);
    let obj = s.objects.get(c).unwrap();
    assert_eq!(obj.count_counters(CounterKind::PlusOnePlusOne), 1);
    assert_eq!(obj.count_counters(CounterKind::MinusOneMinusOne), 0);
}

#[test]
fn annihilation_does_not_apply_with_only_one_kind() {
    let mut s = GameState::new(2, 0);
    let c = put_creature(&mut s, 0, Zone::Battlefield, 2, 2);
    s.objects.get_mut(c).unwrap().add_counters(CounterKind::PlusOnePlusOne, 2);
    apply_state_based_actions(&mut s);
    assert_eq!(s.objects.get(c).unwrap().count_counters(CounterKind::PlusOnePlusOne), 2);
}

#[test]
fn sole_survivor_wins() {
    let mut s = GameState::new(2, 0);
    s.player_mut(1).life = 0;
    apply_state_based_actions(&mut s);
    assert_eq!(s.result, Some(GameResult::Win(0)));
    assert!(s.event_log.iter().any(|e| matches!(e, GameEvent::PlayerWins { player: 0 })));
}

#[test]
fn both_losing_simultaneously_is_draw() {
    let mut s = GameState::new(2, 0);
    s.player_mut(0).life = 0;
    s.player_mut(1).life = 0;
    apply_state_based_actions(&mut s);
    assert_eq!(s.result, Some(GameResult::Draw));
}

#[test]
fn three_player_last_standing_wins() {
    let mut s = GameState::new(3, 0);
    s.player_mut(0).life = 0;
    s.player_mut(2).life = 0;
    apply_state_based_actions(&mut s);
    assert_eq!(s.result, Some(GameResult::Win(1)));
}

#[test]
fn sba_is_idempotent_when_settled() {
    let mut s = GameState::new(2, 0);
    put_creature(&mut s, 0, Zone::Battlefield, 2, 2);
    assert_eq!(apply_state_based_actions(&mut s), 0);
    assert_eq!(apply_state_based_actions(&mut s), 0);
}

#[test]
fn token_dies_and_ceases_to_exist_in_one_sba_call() {
    let mut s = GameState::new(2, 0);
    let t = put_creature(&mut s, 0, Zone::Battlefield, 1, 1);
    s.objects.get_mut(t).unwrap().is_token = true;
    s.objects.get_mut(t).unwrap().damage_marked = 1;

    apply_state_based_actions(&mut s);

    assert!(
        s.objects.get(t).is_none() && s.objects.iter().find(|o| o.id == t + 1).is_none(),
        "token removed from arena entirely after dying"
    );
    assert_eq!(s.zone_count(Zone::Graveyard(0)), 0, "no token residue in graveyard");
    assert_eq!(s.zone_count(Zone::Battlefield), 0);
}

#[test]
fn nontoken_creature_goes_to_graveyard_and_stays() {
    let mut s = GameState::new(2, 0);
    let c = put_creature(&mut s, 0, Zone::Battlefield, 1, 1);
    s.objects.get_mut(c).unwrap().damage_marked = 1;

    apply_state_based_actions(&mut s);

    assert_eq!(s.zone_count(Zone::Graveyard(0)), 1, "ordinary creature corpse remains in graveyard");
}

#[test]
fn token_in_graveyard_ceases_on_next_sba() {
    let mut s = GameState::new(2, 0);
    let t = put_creature(&mut s, 0, Zone::Graveyard(0), 1, 1);
    s.objects.get_mut(t).unwrap().is_token = true;
    assert!(pending_token_cease(&s));
    apply_state_based_actions(&mut s);
    assert!(s.objects.get(t).is_none(), "token in graveyard was removed");
    assert!(!pending_token_cease(&s));
}

#[test]
fn sba_cascades_annihilate_then_die() {
    let mut s = GameState::new(2, 0);
    let c = put_creature(&mut s, 0, Zone::Battlefield, 1, 1);
    s.objects.get_mut(c).unwrap().add_counters(CounterKind::PlusOnePlusOne, 1);
    s.objects.get_mut(c).unwrap().add_counters(CounterKind::MinusOneMinusOne, 2);
    apply_state_based_actions(&mut s);
    assert_eq!(s.zone_count(Zone::Graveyard(0)), 1);
    assert_eq!(s.zone_count(Zone::Battlefield), 0);
}

#[test]
fn pending_checks_reflect_dirty_state() {
    let mut s = GameState::new(2, 0);
    assert!(!has_pending_state_based_actions(&s));
    s.player_mut(0).life = 0;
    assert!(pending_player_loss(&s));
    assert!(has_pending_state_based_actions(&s));
}

#[test]
fn bolt_kills_bear_via_sba() {
    let mut s = GameState::new(2, 0);
    let bear = put_creature(&mut s, 1, Zone::Battlefield, 2, 2);
    s.deal_damage(99, DamageTarget::Object(bear), 3, false);
    apply_state_based_actions(&mut s);
    assert_eq!(s.zone_count(Zone::Graveyard(1)), 1);
    assert!(s
        .event_log
        .iter()
        .any(|e| matches!(e, GameEvent::Dies { object_id } if *object_id == bear)));
}

#[test]
fn bolt_kills_player_via_sba() {
    let mut s = GameState::new(2, 0);
    for _ in 0..7 {
        s.deal_damage(99, DamageTarget::Player(1), 3, false);
    }
    apply_state_based_actions(&mut s);
    assert!(s.player(1).has_lost);
    assert_eq!(s.result, Some(GameResult::Win(0)));
}

fn put_aura(s: &mut GameState, owner: PlayerId, zone: Zone) -> ObjectId {
    let id = s.allocate_object_id();
    let chars = Characteristics { types: TypeLine::ENCHANTMENT.into(), is_aura: true, ..Default::default() };
    let mut obj = GameObject::new(id, owner, zone, 1, chars);
    obj.controller = owner;
    s.objects.insert(obj);
    id
}

#[test]
fn unattached_aura_on_battlefield_goes_to_graveyard() {
    let mut s = GameState::new(2, 0);
    let aura = put_aura(&mut s, 0, Zone::Battlefield);
    assert!(pending_aura_illegal(&s));
    apply_state_based_actions(&mut s);
    assert_eq!(s.zone_count(Zone::Graveyard(0)), 1, "unattached Aura lands in owner's graveyard");
    assert_eq!(s.zone_count(Zone::Battlefield), 0);
    let _ = aura;
}

#[test]
fn aura_whose_host_left_goes_to_graveyard() {
    let mut s = GameState::new(2, 0);
    let creature = put_creature(&mut s, 0, Zone::Battlefield, 2, 2);
    let aura = put_aura(&mut s, 0, Zone::Battlefield);
    s.objects.get_mut(aura).unwrap().attached_to = Some(creature);
    s.objects.get_mut(creature).unwrap().attachments.push(aura);
    s.objects.get_mut(creature).unwrap().damage_marked = 3;

    apply_state_based_actions(&mut s);

    assert_eq!(s.zone_count(Zone::Battlefield), 0, "creature died and Aura followed");
    assert_eq!(s.zone_count(Zone::Graveyard(0)), 2, "creature + Aura both in owner's graveyard");
}

#[test]
fn non_aura_enchantment_stays_on_battlefield() {
    let mut s = GameState::new(2, 0);
    let id = s.allocate_object_id();
    let chars = Characteristics { types: TypeLine::ENCHANTMENT.into(), is_aura: false, ..Default::default() };
    s.objects.insert(GameObject::new(id, 0, Zone::Battlefield, 1, chars));
    assert!(!pending_aura_illegal(&s));
    apply_state_based_actions(&mut s);
    assert_eq!(s.zone_count(Zone::Battlefield), 1, "non-Aura enchantment stays put");
}

#[test]
fn aura_attached_to_legal_target_stays() {
    let mut s = GameState::new(2, 0);
    let creature = put_creature(&mut s, 0, Zone::Battlefield, 2, 2);
    let aura = put_aura(&mut s, 0, Zone::Battlefield);
    s.objects.get_mut(aura).unwrap().attached_to = Some(creature);
    s.objects.get_mut(creature).unwrap().attachments.push(aura);

    apply_state_based_actions(&mut s);

    assert_eq!(s.zone_count(Zone::Battlefield), 2, "both remain on the battlefield");
    assert!(s.objects.get(aura).is_some_and(|o| o.attached_to == Some(creature)));
}

fn put_land(s: &mut GameState, owner: PlayerId) -> ObjectId {
    let id = s.allocate_object_id();
    let chars = Characteristics { types: TypeLine::LAND.into(), ..Default::default() };
    let mut obj = GameObject::new(id, owner, Zone::Battlefield, 1, chars);
    obj.controller = owner;
    s.objects.insert(obj);
    id
}

fn put_fortification(s: &mut GameState, owner: PlayerId) -> ObjectId {
    let id = s.allocate_object_id();
    let chars = Characteristics { types: TypeLine::ARTIFACT.into(), is_fortification: true, ..Default::default() };
    let mut obj = GameObject::new(id, owner, Zone::Battlefield, 1, chars);
    obj.controller = owner;
    s.objects.insert(obj);
    id
}

fn put_equipment(s: &mut GameState, owner: PlayerId) -> ObjectId {
    let id = s.allocate_object_id();
    let chars = Characteristics { types: TypeLine::ARTIFACT.into(), ..Default::default() };
    let mut obj = GameObject::new(id, owner, Zone::Battlefield, 1, chars);
    obj.controller = owner;
    s.objects.insert(obj);
    id
}

#[test]
fn fortification_on_legal_land_stays_attached() {
    let mut s = GameState::new(2, 0);
    let land = put_land(&mut s, 0);
    let fort = put_fortification(&mut s, 0);
    s.objects.get_mut(fort).unwrap().attached_to = Some(land);
    s.objects.get_mut(land).unwrap().attachments.push(fort);

    assert!(!pending_fortification_illegal(&s));
    apply_state_based_actions(&mut s);
    assert_eq!(s.zone_count(Zone::Battlefield), 2);
    assert_eq!(s.objects.get(fort).unwrap().attached_to, Some(land));
}

#[test]
fn fortification_on_creature_detaches() {
    let mut s = GameState::new(2, 0);
    let creature = put_creature(&mut s, 0, Zone::Battlefield, 2, 2);
    let fort = put_fortification(&mut s, 0);
    s.objects.get_mut(fort).unwrap().attached_to = Some(creature);
    s.objects.get_mut(creature).unwrap().attachments.push(fort);

    assert!(pending_fortification_illegal(&s));
    apply_state_based_actions(&mut s);

    assert_eq!(s.zone_count(Zone::Battlefield), 2, "both still on the battlefield");
    assert_eq!(s.objects.get(fort).unwrap().attached_to, None, "Fortification detached from creature");
    assert!(s.objects.get(creature).unwrap().attachments.is_empty(), "creature's attachments list cleared");
}

#[test]
fn fortification_whose_land_left_becomes_unattached() {
    let mut s = GameState::new(2, 0);
    let land = put_land(&mut s, 0);
    let fort = put_fortification(&mut s, 0);
    s.objects.get_mut(fort).unwrap().attached_to = Some(land);
    s.objects.get_mut(land).unwrap().attachments.push(fort);
    s.move_object_to_zone(land, Zone::Graveyard(0), MoveCause::StateBasedAction);

    apply_state_based_actions(&mut s);

    assert_eq!(
        s.objects.get(fort).unwrap().attached_to,
        None,
        "Fortification left unattached once its land was gone"
    );
    assert_eq!(s.zone_count(Zone::Battlefield), 1, "Fortification stays on the battlefield");
}

#[test]
fn equipment_sba_ignores_fortification_on_land() {
    let mut s = GameState::new(2, 0);
    let land = put_land(&mut s, 0);
    let fort = put_fortification(&mut s, 0);
    s.objects.get_mut(fort).unwrap().attached_to = Some(land);
    s.objects.get_mut(land).unwrap().attachments.push(fort);

    assert!(!pending_attachment_illegal(&s), "Equipment SBA must ignore Fortifications");
    apply_state_based_actions(&mut s);
    assert_eq!(s.objects.get(fort).unwrap().attached_to, Some(land));
}

#[test]
fn equipment_on_land_still_detaches() {
    let mut s = GameState::new(2, 0);
    let land = put_land(&mut s, 0);
    let equip = put_equipment(&mut s, 0);
    s.objects.get_mut(equip).unwrap().attached_to = Some(land);
    s.objects.get_mut(land).unwrap().attachments.push(equip);

    assert!(pending_attachment_illegal(&s));
    apply_state_based_actions(&mut s);
    assert_eq!(s.objects.get(equip).unwrap().attached_to, None);
}

#[test]
fn dying_creature_leaves_by_a_logged_zone_change() {
    let mut s = GameState::new(2, 0);
    let c = put_creature(&mut s, 0, Zone::Battlefield, 1, 1);
    let bystander = put_creature(&mut s, 1, Zone::Battlefield, 3, 3);
    s.objects.get_mut(c).unwrap().mark_damage(1);
    let before = s.event_log.len();
    apply_state_based_actions(&mut s);
    assert!(s.objects.get(c).is_none());
    assert!(s.event_log[before..].iter().any(|e| matches!(e,
        GameEvent::ZoneChanged { object_id, from: Zone::Battlefield, to: Zone::Graveyard(0), cause: MoveCause::StateBasedAction, .. }
            if *object_id == c)));
    assert_eq!(s.objects.get(bystander).unwrap().zone, Zone::Battlefield);
}
