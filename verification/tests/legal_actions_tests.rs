use arcana_core::legal_actions::{
    enumerate_attacker_declarations, enumerate_blocker_orderings, legal_actions, legal_special_actions, Action, AttackerDeclaration,
    ChoiceAction, DefendingEntity,
};
use arcana_core::registry::CardRegistry;
use arcana_core::layers::{ContinuousEffect, Duration};
use arcana_core::priority::SpecialAction;
use arcana_core::objects::{Characteristics, GameObject, ObjectId};
use arcana_core::state::{AttackerInfo, CombatPhase, CombatState, GameState};
use arcana_core::types::{KeywordAbility, PlayerId, PtValue, TypeLine};
use arcana_core::zones::Zone;

fn put(s: &mut GameState, owner: PlayerId, types: u16, keywords: Vec<KeywordAbility>) -> ObjectId {
    let id = s.allocate_object_id();
    let chars = Characteristics {
        types: types.into(),
        power: Some(PtValue::Fixed(2)),
        toughness: Some(PtValue::Fixed(2)),
        keywords,
        ..Default::default()
    };
    let mut obj = GameObject::new(id, owner, Zone::Battlefield, 1, chars);
    obj.controller = owner;
    s.objects.insert(obj);
    id
}

fn creature(s: &mut GameState, owner: PlayerId) -> ObjectId {
    put(s, owner, TypeLine::CREATURE, Vec::new())
}

fn decls(actions: &[Action]) -> Vec<Vec<AttackerDeclaration>> {
    actions
        .iter()
        .map(|a| match a {
            Action::DeclareAttackers { attackers } => attackers.clone(),
            other => panic!("expected DeclareAttackers, got {other:?}"),
        })
        .collect()
}

fn at(attacker: ObjectId, defending: DefendingEntity) -> AttackerDeclaration {
    AttackerDeclaration { attacker, defending }
}

#[test]
fn no_creatures_only_declines() {
    let s = GameState::new(2, 1);
    let out = decls(&enumerate_attacker_declarations(&s, 0));
    assert_eq!(out, vec![Vec::<AttackerDeclaration>::new()]);
}

#[test]
fn one_creature_may_attack_the_opponent_or_stay_home() {
    let mut s = GameState::new(2, 1);
    let c = creature(&mut s, 0);
    let _theirs = creature(&mut s, 1);
    let out = decls(&enumerate_attacker_declarations(&s, 0));
    assert_eq!(out, vec![vec![], vec![at(c, DefendingEntity::Player(1))]]);
}

#[test]
fn two_creatures_give_every_combination_first_attacker_fastest() {
    let mut s = GameState::new(2, 1);
    let a = creature(&mut s, 0);
    let b = creature(&mut s, 0);
    let p1 = DefendingEntity::Player(1);
    let out = decls(&enumerate_attacker_declarations(&s, 0));
    assert_eq!(out, vec![vec![], vec![at(a, p1)], vec![at(b, p1)], vec![at(a, p1), at(b, p1)]]);
}

#[test]
fn opposing_planeswalkers_and_battles_are_defenders() {
    let mut s = GameState::new(2, 1);
    let c = creature(&mut s, 0);
    let pw = put(&mut s, 1, TypeLine::PLANESWALKER, Vec::new());
    let battle = put(&mut s, 1, TypeLine::BATTLE, Vec::new());
    let _own_pw = put(&mut s, 0, TypeLine::PLANESWALKER, Vec::new());
    let out = decls(&enumerate_attacker_declarations(&s, 0));
    assert_eq!(
        out,
        vec![
            vec![],
            vec![at(c, DefendingEntity::Player(1))],
            vec![at(c, DefendingEntity::Planeswalker(pw))],
            vec![at(c, DefendingEntity::Battle(battle))],
        ]
    );
}

#[test]
fn tapped_sick_and_defender_creatures_cannot_attack() {
    let mut s = GameState::new(2, 1);
    let tapped = creature(&mut s, 0);
    s.objects.get_mut(tapped).unwrap().status.tapped = true;
    let sick = creature(&mut s, 0);
    s.objects.get_mut(sick).unwrap().status.summoning_sick = true;
    let _wall = put(&mut s, 0, TypeLine::CREATURE, vec![KeywordAbility::Defender]);
    let out = decls(&enumerate_attacker_declarations(&s, 0));
    assert_eq!(out, vec![Vec::<AttackerDeclaration>::new()]);
}

#[test]
fn haste_lets_a_summoning_sick_creature_attack() {
    let mut s = GameState::new(2, 1);
    let hasty = put(&mut s, 0, TypeLine::CREATURE, vec![KeywordAbility::Haste]);
    s.objects.get_mut(hasty).unwrap().status.summoning_sick = true;
    let out = decls(&enumerate_attacker_declarations(&s, 0));
    assert_eq!(out, vec![vec![], vec![at(hasty, DefendingEntity::Player(1))]]);
}

#[test]
fn each_opponent_is_a_defender_in_seat_order() {
    let mut s = GameState::new(3, 1);
    let c = creature(&mut s, 1);
    let out = decls(&enumerate_attacker_declarations(&s, 1));
    assert_eq!(
        out,
        vec![vec![], vec![at(c, DefendingEntity::Player(0))], vec![at(c, DefendingEntity::Player(2))]]
    );
}

#[test]
fn too_many_combinations_give_singles_and_alpha_strikes() {
    let mut s = GameState::new(2, 1);
    let ids: Vec<ObjectId> = (0..11).map(|_| creature(&mut s, 0)).collect();
    let p1 = DefendingEntity::Player(1);
    let out = decls(&enumerate_attacker_declarations(&s, 0));
    assert_eq!(out.len(), 1 + 11 + 1);
    assert!(out[0].is_empty());
    for (i, id) in ids.iter().enumerate() {
        assert_eq!(out[1 + i], vec![at(*id, p1)]);
    }
    assert_eq!(out[12], ids.iter().map(|id| at(*id, p1)).collect::<Vec<_>>());
}

#[test]
fn ten_creatures_still_enumerate_every_combination() {
    let mut s = GameState::new(2, 1);
    for _ in 0..10 {
        creature(&mut s, 0);
    }
    let out = decls(&enumerate_attacker_declarations(&s, 0));
    assert_eq!(out.len(), 1024);
    assert_eq!(out[1023].len(), 10);
}

fn put_obj(s: &mut GameState, owner: PlayerId, chars: Characteristics) -> ObjectId {
    let id = s.allocate_object_id();
    let mut obj = GameObject::new(id, owner, Zone::Battlefield, 1, chars);
    obj.controller = owner;
    s.objects.insert(obj);
    id
}

fn creature_chars(p: i32, t: i32) -> Characteristics {
    Characteristics {
        types: TypeLine::CREATURE.into(),
        power: Some(PtValue::Fixed(p)),
        toughness: Some(PtValue::Fixed(t)),
        ..Default::default()
    }
}

fn attack_window(s: &mut GameState) -> Vec<Action> {
    s.combat = Some(CombatState { phase: CombatPhase::DeclareAttackers, attackers: Vec::new(), blockers: Vec::new() });
    legal_actions(s, &CardRegistry::new())
}

fn special_window(s: &mut GameState, special: SpecialAction) -> Vec<Action> {
    s.priority.special_action = Some(special);
    legal_actions(s, &CardRegistry::new())
}

#[test]
fn declare_attackers_emits_empty_plus_singletons() {
    let mut s = GameState::new(2, 0);
    let atk = put_obj(&mut s, 0, creature_chars(2, 2));
    s.objects.get_mut(atk).unwrap().status.summoning_sick = false;

    let actions = attack_window(&mut s);
    assert!(actions.iter().any(|a| matches!(a, Action::DeclareAttackers { attackers } if attackers.is_empty())));
    assert!(actions.iter().any(|a| matches!(a, Action::DeclareAttackers { attackers }
        if attackers.len() == 1
        && attackers[0].attacker == atk
        && matches!(attackers[0].defending, DefendingEntity::Player(1)))));
}

#[test]
fn declare_attackers_enumerates_multi_attacker_declarations() {
    let mut s = GameState::new(2, 0);
    let a = put_obj(&mut s, 0, creature_chars(2, 2));
    let b = put_obj(&mut s, 0, creature_chars(3, 3));
    s.objects.get_mut(a).unwrap().status.summoning_sick = false;
    s.objects.get_mut(b).unwrap().status.summoning_sick = false;

    let actions = attack_window(&mut s);
    assert!(
        actions.iter().any(|act| matches!(act,
            Action::DeclareAttackers { attackers }
                if attackers.len() == 2
                && attackers.iter().any(|d| d.attacker == a)
                && attackers.iter().any(|d| d.attacker == b)
                && attackers.iter().all(|d| matches!(d.defending, DefendingEntity::Player(1))))),
        "multi-attacker (both) declaration is enumerated"
    );
    let decls = actions.iter().filter(|act| matches!(act, Action::DeclareAttackers { .. })).count();
    assert_eq!(decls, 4, "empty + {{a}} + {{b}} + {{a,b}}");
}

#[test]
fn summoning_sick_creature_is_not_an_attacker() {
    let mut s = GameState::new(2, 0);
    let c = put_obj(&mut s, 0, creature_chars(2, 2));
    s.objects.get_mut(c).unwrap().status.summoning_sick = true;

    let actions = attack_window(&mut s);
    let decls = actions.iter().filter(|a| matches!(a, Action::DeclareAttackers { .. })).count();
    assert_eq!(decls, 1);
}

#[test]
fn haste_overrides_summoning_sickness_for_attack() {
    let mut s = GameState::new(2, 0);
    let atk = put_obj(&mut s, 0, creature_chars(2, 2));
    s.objects.get_mut(atk).unwrap().status.summoning_sick = true;
    s.objects.get_mut(atk).unwrap().characteristics.keywords.push(KeywordAbility::Haste);

    let actions = attack_window(&mut s);
    assert!(actions.iter().any(|a| matches!(a, Action::DeclareAttackers { attackers }
        if attackers.len() == 1 && attackers[0].attacker == atk)));
}

#[test]
fn defender_creature_cannot_attack() {
    let mut s = GameState::new(2, 0);
    let c = put_obj(&mut s, 0, creature_chars(2, 2));
    s.objects.get_mut(c).unwrap().status.summoning_sick = false;
    s.objects.get_mut(c).unwrap().characteristics.keywords.push(KeywordAbility::Defender);

    let actions = attack_window(&mut s);
    let decls = actions.iter().filter(|a| matches!(a, Action::DeclareAttackers { .. })).count();
    assert_eq!(decls, 1);
}

#[test]
fn tapped_creature_is_not_an_attacker() {
    let mut s = GameState::new(2, 0);
    let c = put_obj(&mut s, 0, creature_chars(2, 2));
    s.objects.get_mut(c).unwrap().status.summoning_sick = false;
    s.objects.get_mut(c).unwrap().tap();

    let actions = attack_window(&mut s);
    let decls = actions.iter().filter(|a| matches!(a, Action::DeclareAttackers { .. })).count();
    assert_eq!(decls, 1);
}

#[test]
fn declare_attackers_includes_planeswalker_as_defender() {
    let mut s = GameState::new(2, 0);
    let atk = put_obj(&mut s, 0, creature_chars(2, 2));
    s.objects.get_mut(atk).unwrap().status.summoning_sick = false;
    let pw_chars = Characteristics {
        types: TypeLine::PLANESWALKER.into(),
        loyalty: Some(3),
        ..Default::default()
    };
    let pw = put_obj(&mut s, 1, pw_chars);

    let actions = attack_window(&mut s);
    assert!(actions.iter().any(|a| matches!(a, Action::DeclareAttackers { attackers }
        if attackers.len() == 1
        && matches!(attackers[0].defending, DefendingEntity::Planeswalker(id) if id == pw))));
}

#[test]
fn declare_attackers_includes_battle_as_defender() {
    let mut s = GameState::new(2, 0);
    let atk = put_obj(&mut s, 0, creature_chars(2, 2));
    s.objects.get_mut(atk).unwrap().status.summoning_sick = false;
    let battle_chars = Characteristics {
        types: TypeLine::BATTLE.into(),
        ..Default::default()
    };
    let battle = put_obj(&mut s, 1, battle_chars);

    let actions = attack_window(&mut s);
    assert!(
        actions.iter().any(|a| matches!(a, Action::DeclareAttackers { attackers }
            if attackers.len() == 1
            && matches!(attackers[0].defending, DefendingEntity::Battle(id) if id == battle))),
        "an opponent's battle must be offered as an attack target"
    );
}

fn put_in_hand(s: &mut GameState, owner: PlayerId) -> ObjectId {
    let id = s.allocate_object_id();
    let chars = Characteristics { types: TypeLine::INSTANT.into(), ..Default::default() };
    s.objects.insert(GameObject::new(id, owner, Zone::Hand(owner), 1, chars));
    id
}

#[test]
fn discard_to_hand_size_enumerates_hand() {
    let mut s = GameState::new(2, 0);
    let a = put_in_hand(&mut s, 0);
    let b = put_in_hand(&mut s, 0);
    let _theirs = put_in_hand(&mut s, 1);
    let actions = special_window(&mut s, SpecialAction::DiscardToHandSize);
    assert_eq!(actions.len(), 2);
    assert!(actions.contains(&Action::MakeChoice(ChoiceAction::ChooseObject(a))));
    assert!(actions.contains(&Action::MakeChoice(ChoiceAction::ChooseObject(b))));
}

#[test]
fn choose_first_player_enumerates_players() {
    let mut s = GameState::new(3, 0);
    let actions = special_window(&mut s, SpecialAction::ChooseFirstPlayer);
    assert_eq!(actions.len(), 3);
    assert_eq!(actions[2], Action::MakeChoice(ChoiceAction::ChoosePlayer(2)));
}

#[test]
fn bottom_cards_emits_one_canonical_action() {
    let mut s = GameState::new(2, 0);
    let a = put_in_hand(&mut s, 0);
    let b = put_in_hand(&mut s, 0);
    put_in_hand(&mut s, 0);
    let actions = special_window(&mut s, SpecialAction::LondonMulliganBottomCards(2));
    assert_eq!(actions.len(), 1);
    match &actions[0] {
        Action::BottomCards(ids) => assert_eq!(ids, &vec![a, b]),
        other => panic!("expected BottomCards, got {other:?}"),
    }
}

#[test]
fn bottom_cards_takes_the_whole_hand_when_asked_for_more() {
    let mut s = GameState::new(2, 0);
    let a = put_in_hand(&mut s, 0);
    let actions = legal_special_actions(&s, 0, &SpecialAction::LondonMulliganBottomCards(5));
    assert_eq!(actions, vec![Action::BottomCards(vec![a])]);
}

#[test]
fn mulligan_decision_offers_keep_then_mulligan() {
    let s = GameState::new(2, 0);
    let actions = legal_special_actions(&s, 0, &SpecialAction::MulliganDecision);
    assert_eq!(actions, vec![Action::MulliganKeep, Action::MulliganAgain]);
    assert!(legal_special_actions(&s, 0, &SpecialAction::Sideboarding).is_empty());
}

#[test]
fn mulligan_decision_yields_keep_and_again() {
    let mut s = GameState::new(2, 0);
    let actions = special_window(&mut s, SpecialAction::MulliganDecision);
    assert_eq!(actions.len(), 2);
    assert!(actions.contains(&Action::MulliganKeep));
    assert!(actions.contains(&Action::MulliganAgain));
}

fn orderings(actions: &[Action]) -> Vec<Vec<(ObjectId, Vec<ObjectId>)>> {
    actions
        .iter()
        .map(|a| match a {
            Action::OrderBlockers { orderings } => orderings.clone(),
            other => panic!("expected OrderBlockers, got {other:?}"),
        })
        .collect()
}

#[test]
fn enumerate_blocker_orderings_emits_all_permutations() {
    let mut s = GameState::new(2, 0);
    let atk = creature(&mut s, 0);
    let b1 = creature(&mut s, 1);
    let b2 = creature(&mut s, 1);
    s.combat = Some(CombatState {
        phase: Default::default(),
        attackers: vec![AttackerInfo { object_id: atk, defender: 1, blocked_by: vec![b1, b2] }],
        blockers: Vec::new(),
    });
    let orderings = orderings(&enumerate_blocker_orderings(&s));
    assert_eq!(orderings.len(), 2, "both permutations emitted");
    assert!(orderings.iter().any(|o| o == &vec![(atk, vec![b1, b2])]));
    assert!(orderings.iter().any(|o| o == &vec![(atk, vec![b2, b1])]));
}

#[test]
fn blocker_orderings_multiply_across_attackers() {
    let s = GameState::new(2, 0);
    let mut s = s;
    s.combat = Some(CombatState {
        phase: Default::default(),
        attackers: vec![
            AttackerInfo { object_id: 1, defender: 1, blocked_by: vec![10, 11] },
            AttackerInfo { object_id: 2, defender: 1, blocked_by: vec![12] },
            AttackerInfo { object_id: 3, defender: 1, blocked_by: vec![13, 14] },
        ],
        blockers: Vec::new(),
    });
    let got = orderings(&enumerate_blocker_orderings(&s));
    assert_eq!(
        got,
        vec![
            vec![(1, vec![10, 11]), (3, vec![13, 14])],
            vec![(1, vec![10, 11]), (3, vec![14, 13])],
            vec![(1, vec![11, 10]), (3, vec![13, 14])],
            vec![(1, vec![11, 10]), (3, vec![14, 13])],
        ]
    );
}

#[test]
fn no_orderings_without_a_multiple_block() {
    let mut s = GameState::new(2, 0);
    assert!(enumerate_blocker_orderings(&s).is_empty());
    s.combat = Some(CombatState {
        phase: Default::default(),
        attackers: vec![AttackerInfo { object_id: 1, defender: 1, blocked_by: vec![12] }],
        blockers: Vec::new(),
    });
    assert!(enumerate_blocker_orderings(&s).is_empty());
}

#[test]
fn blocker_orderings_are_capped() {
    let mut s = GameState::new(2, 0);
    s.combat = Some(CombatState {
        phase: Default::default(),
        attackers: vec![
            AttackerInfo { object_id: 1, defender: 1, blocked_by: vec![10, 11, 12, 13, 14] },
            AttackerInfo { object_id: 2, defender: 1, blocked_by: vec![20, 21, 22, 23] },
        ],
        blockers: Vec::new(),
    });
    let got = orderings(&enumerate_blocker_orderings(&s));
    assert_eq!(got.len(), 1024);
    assert_eq!(got[0], vec![(1, vec![10, 11, 12, 13, 14]), (2, vec![20, 21, 22, 23])]);
}

fn ready_creature(s: &mut GameState, owner: PlayerId) -> ObjectId {
    let c = put_obj(s, owner, creature_chars(2, 2));
    s.objects.get_mut(c).unwrap().status.summoning_sick = false;
    c
}

#[test]
fn must_attack_creature_forces_declaration() {
    let mut s = GameState::new(2, 0);
    let a = ready_creature(&mut s, 0);
    let _b = ready_creature(&mut s, 0);
    s.add_continuous_effect(ContinuousEffect::must_attack(a, a, Duration::EndOfTurn));
    let actions = attack_window(&mut s);
    let decls: Vec<_> = actions.iter().filter(|act| matches!(act, Action::DeclareAttackers { .. })).collect();
    assert!(!decls.is_empty());
    assert!(
        decls.iter().all(|act| matches!(act,
            Action::DeclareAttackers { attackers } if attackers.iter().any(|d| d.attacker == a))),
        "every declaration includes the must-attack creature"
    );
    assert!(
        !actions.iter().any(|act| matches!(act, Action::DeclareAttackers { attackers } if attackers.is_empty())),
        "declining is illegal when a creature must attack"
    );
    assert_eq!(decls.len(), 2);
}

#[test]
fn goaded_creature_must_attack_if_able() {
    let mut s = GameState::new(3, 0);
    let atk = ready_creature(&mut s, 0);
    s.add_continuous_effect(ContinuousEffect::goad(atk, atk, 1, Duration::EndOfTurn));
    let actions = attack_window(&mut s);
    assert!(
        !actions.iter().any(|act| matches!(act, Action::DeclareAttackers { attackers } if attackers.is_empty())),
        "a goaded creature must attack (it can attack the non-goader)"
    );
    assert!(!actions.iter().any(|act| matches!(act,
        Action::DeclareAttackers { attackers }
            if attackers.iter().any(|d| matches!(d.defending, DefendingEntity::Player(1))))));
    assert_eq!(actions.len(), 1);
}

#[test]
fn cant_attack_effect_excludes_creature_from_attackers() {
    let mut s = GameState::new(2, 0);
    let c = ready_creature(&mut s, 0);
    s.add_continuous_effect(ContinuousEffect::cant_attack(c, c, Duration::EndOfTurn));
    let actions = attack_window(&mut s);
    let decls = actions.iter().filter(|a| matches!(a, Action::DeclareAttackers { .. })).count();
    assert_eq!(decls, 1);
}

#[test]
fn goaded_creature_cannot_declare_attack_on_goader() {
    let mut s = GameState::new(3, 0);
    let atk = ready_creature(&mut s, 0);
    s.add_continuous_effect(ContinuousEffect::goad(atk, atk, 1, Duration::EndOfTurn));
    let actions = attack_window(&mut s);
    assert!(!actions.iter().any(|a| matches!(a,
        Action::DeclareAttackers { attackers }
            if attackers.len() == 1
            && attackers[0].attacker == atk
            && matches!(attackers[0].defending, DefendingEntity::Player(1)))));
    assert!(actions.iter().any(|a| matches!(a,
        Action::DeclareAttackers { attackers }
            if attackers.len() == 1
            && attackers[0].attacker == atk
            && matches!(attackers[0].defending, DefendingEntity::Player(2)))));
}

#[test]
fn goaded_creature_with_only_its_goader_to_attack_stays_home() {
    let mut s = GameState::new(2, 0);
    let atk = ready_creature(&mut s, 0);
    s.add_continuous_effect(ContinuousEffect::goad(atk, atk, 1, Duration::EndOfTurn));
    let actions = attack_window(&mut s);
    assert_eq!(decls(&actions), vec![Vec::<AttackerDeclaration>::new()]);
}
