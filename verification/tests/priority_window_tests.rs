use arcana_core::legal_actions::{legal_actions, Action, BlockerDeclaration, ChoiceAction, ChoiceResponse, DefendingEntity};
use arcana_core::mana::{ManaCost, ManaUnit};
use arcana_core::objects::{Characteristics, GameObject, ObjectId};
use arcana_core::priority::SpecialAction;
use arcana_core::registry::CardRegistry;
use arcana_core::state::{
    AttackerInfo, ChoiceContext, ChoiceKind, CombatPhase, CombatState, GameResult, GameState, PendingChoice,
};
use arcana_core::turn::Step;
use arcana_core::types::{ColorSet, KeywordAbility, ManaColor, PlayerId, PtValue, TypeLine};
use arcana_core::zones::Zone;

fn cost(text: &str) -> ManaCost {
    ManaCost::parse(text).unwrap()
}

fn creature_chars(p: i32, t: i32) -> Characteristics {
    Characteristics {
        mana_cost: Some(cost("{G}")),
        colors: ColorSet::green(),
        types: TypeLine::CREATURE.into(),
        power: Some(PtValue::Fixed(p)),
        toughness: Some(PtValue::Fixed(t)),
        ..Default::default()
    }
}

fn instant_chars() -> Characteristics {
    Characteristics {
        mana_cost: Some(cost("{R}")),
        colors: ColorSet::red(),
        types: TypeLine::INSTANT.into(),
        ..Default::default()
    }
}

fn sorcery_chars() -> Characteristics {
    Characteristics {
        mana_cost: Some(cost("{U}")),
        colors: ColorSet::blue(),
        types: TypeLine::SORCERY.into(),
        ..Default::default()
    }
}

fn land_chars() -> Characteristics {
    Characteristics { mana_cost: None, types: TypeLine::LAND.into(), ..Default::default() }
}

fn x_instant_chars() -> Characteristics {
    Characteristics {
        mana_cost: Some(cost("{X}{R}")),
        colors: ColorSet::red(),
        types: TypeLine::INSTANT.into(),
        ..Default::default()
    }
}

fn put(state: &mut GameState, owner: PlayerId, zone: Zone, chars: Characteristics) -> ObjectId {
    let id = state.allocate_object_id();
    let mut obj = GameObject::new(id, owner, zone, 1, chars);
    obj.controller = owner;
    state.objects.insert(obj);
    id
}

fn add_mana(state: &mut GameState, p: PlayerId, color: ManaColor, n: u32) {
    state.player_mut(p).mana_pool.add_mana(color, n, 0);
}

fn set_main_phase(state: &mut GameState) {
    state.step = Step::Main;
}

fn is_pass(a: &Action) -> bool {
    matches!(a, Action::PassPriority)
}

fn is_concede(a: &Action) -> bool {
    matches!(a, Action::Concede)
}

fn combat(phase: CombatPhase) -> CombatState {
    CombatState { phase, attackers: Vec::new(), blockers: Vec::new() }
}

#[test]
fn game_over_yields_no_actions() {
    let mut s = GameState::new(2, 0);
    s.result = Some(GameResult::Win(0));
    assert!(legal_actions(&s, &CardRegistry::new()).is_empty());
}

#[test]
fn priority_window_always_has_pass_and_concede() {
    let s = GameState::new(2, 0);
    let actions = legal_actions(&s, &CardRegistry::new());
    assert!(actions.iter().any(is_pass));
    assert!(actions.iter().any(is_concede));
    assert!(is_pass(&actions[0]));
    assert!(is_concede(&actions[1]));
}

#[test]
fn can_play_land_in_main_phase_with_empty_stack() {
    let mut s = GameState::new(2, 0);
    set_main_phase(&mut s);
    let l = put(&mut s, 0, Zone::Hand(0), land_chars());
    let actions = legal_actions(&s, &CardRegistry::new());
    assert!(actions.iter().any(|a| matches!(a, Action::PlayLand { object_id } if *object_id == l)));
}

#[test]
fn cannot_play_land_outside_main_phase() {
    let mut s = GameState::new(2, 0);
    put(&mut s, 0, Zone::Hand(0), land_chars());
    let actions = legal_actions(&s, &CardRegistry::new());
    assert!(!actions.iter().any(|a| matches!(a, Action::PlayLand { .. })));
}

#[test]
fn cannot_play_land_with_nonempty_stack() {
    let mut s = GameState::new(2, 0);
    set_main_phase(&mut s);
    put(&mut s, 0, Zone::Hand(0), land_chars());
    put(&mut s, 0, Zone::Stack, instant_chars());
    let actions = legal_actions(&s, &CardRegistry::new());
    assert!(!actions.iter().any(|a| matches!(a, Action::PlayLand { .. })));
}

#[test]
fn cannot_play_land_when_plays_remaining_zero() {
    let mut s = GameState::new(2, 0);
    set_main_phase(&mut s);
    put(&mut s, 0, Zone::Hand(0), land_chars());
    s.player_mut(0).lands_played_this_turn = 1;
    let actions = legal_actions(&s, &CardRegistry::new());
    assert!(!actions.iter().any(|a| matches!(a, Action::PlayLand { .. })));
}

#[test]
fn only_active_player_can_play_land() {
    let mut s = GameState::new(2, 0);
    set_main_phase(&mut s);
    s.priority.player = 1;
    put(&mut s, 1, Zone::Hand(1), land_chars());
    let actions = legal_actions(&s, &CardRegistry::new());
    assert!(!actions.iter().any(|a| matches!(a, Action::PlayLand { .. })));
}

#[test]
fn can_cast_affordable_instant_outside_main_phase() {
    let mut s = GameState::new(2, 0);
    let bolt = put(&mut s, 0, Zone::Hand(0), instant_chars());
    add_mana(&mut s, 0, ManaColor::Red, 1);
    let actions = legal_actions(&s, &CardRegistry::new());
    assert!(actions.iter().any(|a| matches!(a, Action::CastSpell { object_id, .. } if *object_id == bolt)));
}

fn pending_pay_or_decline(text: &str) -> GameState {
    let mut s = GameState::new(2, 0);
    put(&mut s, 0, Zone::Battlefield, creature_chars(1, 1));
    s.pending_choice = Some(PendingChoice {
        choosing_player: 0,
        context: ChoiceContext::Resolution,
        kind: ChoiceKind::PayOrDecline { cost: cost(text) },
    });
    s
}

fn pays(pay: bool) -> Action {
    Action::SubmitResolutionChoice { response: ChoiceResponse::PayOrDecline { pay } }
}

#[test]
fn pay_or_decline_hides_pay_when_unaffordable() {
    let s = pending_pay_or_decline("{3}");
    let actions = legal_actions(&s, &CardRegistry::new());
    assert!(!actions.contains(&pays(true)), "pay must be hidden when the chooser cannot afford the cost");
    assert!(actions.contains(&pays(false)), "decline is always available");
}

#[test]
fn pay_or_decline_offers_pay_when_affordable() {
    let mut s = pending_pay_or_decline("{2}");
    add_mana(&mut s, 0, ManaColor::Red, 2);
    let actions = legal_actions(&s, &CardRegistry::new());
    assert!(actions.contains(&pays(true)), "pay must be offered when affordable");
    assert!(actions.contains(&pays(false)), "decline is always available");
    assert_eq!(actions, vec![pays(true), pays(false), Action::Concede]);
}

#[test]
fn cannot_cast_instant_without_mana() {
    let mut s = GameState::new(2, 0);
    put(&mut s, 0, Zone::Hand(0), instant_chars());
    let actions = legal_actions(&s, &CardRegistry::new());
    assert!(!actions.iter().any(|a| matches!(a, Action::CastSpell { .. })));
}

#[test]
fn sorcery_speed_requires_main_phase_empty_stack_active_player() {
    let mut s = GameState::new(2, 0);
    let sorc = put(&mut s, 0, Zone::Hand(0), sorcery_chars());
    add_mana(&mut s, 0, ManaColor::Blue, 1);
    let actions = legal_actions(&s, &CardRegistry::new());
    assert!(!actions.iter().any(|a| matches!(a, Action::CastSpell { object_id, .. } if *object_id == sorc)));
    set_main_phase(&mut s);
    let actions = legal_actions(&s, &CardRegistry::new());
    assert!(actions.iter().any(|a| matches!(a, Action::CastSpell { object_id, .. } if *object_id == sorc)));
}

#[test]
fn flash_creature_castable_outside_main_phase() {
    let mut s = GameState::new(2, 0);
    let chars = Characteristics {
        mana_cost: Some(cost("{G}")),
        colors: ColorSet::green(),
        types: TypeLine::CREATURE.into(),
        power: Some(PtValue::Fixed(2)),
        toughness: Some(PtValue::Fixed(2)),
        keywords: vec![KeywordAbility::Flash],
        ..Default::default()
    };
    let flashie = put(&mut s, 0, Zone::Hand(0), chars);
    add_mana(&mut s, 0, ManaColor::Green, 1);
    let actions = legal_actions(&s, &CardRegistry::new());
    assert!(actions.iter().any(|a| matches!(a, Action::CastSpell { object_id, .. } if *object_id == flashie)));
}

#[test]
fn cast_spell_uses_real_payment_plan_from_solver() {
    let mut s = GameState::new(2, 0);
    let bolt = put(&mut s, 0, Zone::Hand(0), instant_chars());
    add_mana(&mut s, 0, ManaColor::Red, 2);
    let actions = legal_actions(&s, &CardRegistry::new());
    let casts: Vec<_> = actions
        .iter()
        .filter_map(|a| match a {
            Action::CastSpell { object_id, mana_payment, .. } if *object_id == bolt => Some(mana_payment),
            _ => None,
        })
        .collect();
    assert_eq!(casts.len(), 1);
    assert_eq!(casts[0].assignments.len(), 1);
}

#[test]
fn cast_spell_emits_one_action_per_payment_plan() {
    let mut s = GameState::new(2, 0);
    let chars = Characteristics {
        mana_cost: Some(cost("{W/U}")),
        colors: ColorSet::white().union(ColorSet::blue()),
        types: TypeLine::INSTANT.into(),
        ..Default::default()
    };
    put(&mut s, 0, Zone::Hand(0), chars);
    add_mana(&mut s, 0, ManaColor::White, 1);
    add_mana(&mut s, 0, ManaColor::Blue, 1);
    let actions = legal_actions(&s, &CardRegistry::new());
    let casts = actions.iter().filter(|a| matches!(a, Action::CastSpell { .. })).count();
    assert_eq!(casts, 2);
}

#[test]
fn x_cost_spells_enumerate_one_action_per_x_value() {
    let mut s = GameState::new(2, 0);
    put(&mut s, 0, Zone::Hand(0), x_instant_chars());
    add_mana(&mut s, 0, ManaColor::Red, 5);
    let actions = legal_actions(&s, &CardRegistry::new());
    let x_values: Vec<u32> = actions
        .iter()
        .filter_map(|a| match a {
            Action::CastSpell { x_value: Some(x), .. } => Some(*x),
            _ => None,
        })
        .collect();
    for x in 0..=4 {
        assert!(x_values.contains(&x), "expected X={x} to be among enumerated cast actions");
    }
    assert!(!x_values.contains(&5), "X=5 infeasible with {{X}}{{R}} and 5 red total");
}

#[test]
fn lands_are_not_emitted_as_cast_actions() {
    let mut s = GameState::new(2, 0);
    set_main_phase(&mut s);
    put(&mut s, 0, Zone::Hand(0), land_chars());
    let actions = legal_actions(&s, &CardRegistry::new());
    assert!(!actions.iter().any(|a| matches!(a, Action::CastSpell { .. })));
}

#[test]
fn special_action_suppresses_normal_priority_actions() {
    let mut s = GameState::new(2, 0);
    s.priority.special_action = Some(SpecialAction::MulliganDecision);
    let actions = legal_actions(&s, &CardRegistry::new());
    assert!(!actions.iter().any(is_pass));
    assert_eq!(actions, vec![Action::MulliganKeep, Action::MulliganAgain]);
}

#[test]
fn special_windows_go_through_the_dispatcher() {
    let mut s = GameState::new(3, 0);
    s.priority.special_action = Some(SpecialAction::ChooseFirstPlayer);
    assert_eq!(legal_actions(&s, &CardRegistry::new()).len(), 3);
    let mut s = GameState::new(2, 0);
    let a = put(&mut s, 0, Zone::Hand(0), instant_chars());
    let b = put(&mut s, 0, Zone::Hand(0), instant_chars());
    s.priority.special_action = Some(SpecialAction::DiscardToHandSize);
    let actions = legal_actions(&s, &CardRegistry::new());
    assert_eq!(
        actions,
        vec![Action::MakeChoice(ChoiceAction::ChooseObject(a)), Action::MakeChoice(ChoiceAction::ChooseObject(b))]
    );
}

#[test]
fn declare_attackers_through_the_dispatcher() {
    let mut s = GameState::new(2, 0);
    s.combat = Some(combat(CombatPhase::DeclareAttackers));
    let c = put(&mut s, 0, Zone::Battlefield, creature_chars(2, 2));
    let actions = legal_actions(&s, &CardRegistry::new());
    assert_eq!(actions.len(), 2);
    assert!(matches!(&actions[0], Action::DeclareAttackers { attackers } if attackers.is_empty()));
    assert!(matches!(&actions[1], Action::DeclareAttackers { attackers }
        if attackers.len() == 1 && attackers[0].attacker == c
        && attackers[0].defending == DefendingEntity::Player(1)));
}

#[test]
fn declare_blockers_needs_nonactive_player() {
    let mut s = GameState::new(2, 0);
    s.priority.player = 1;
    let mut c = combat(CombatPhase::DeclareBlockers);
    c.attackers.push(AttackerInfo { object_id: 99, defender: 1, blocked_by: Vec::new() });
    s.combat = Some(c);
    let blk = put(&mut s, 1, Zone::Battlefield, creature_chars(2, 2));
    let actions = legal_actions(&s, &CardRegistry::new());
    assert!(actions.iter().any(|a| matches!(a, Action::DeclareBlockers { blockers } if blockers.is_empty())));
    assert!(actions.iter().any(|a| matches!(a, Action::DeclareBlockers { blockers }
        if blockers.len() == 1 && blockers[0].blocker == blk && blockers[0].blocking == 99)));
}

#[test]
fn combat_declare_attackers_ignored_when_not_active_player() {
    let mut s = GameState::new(2, 0);
    s.priority.player = 1;
    s.combat = Some(combat(CombatPhase::DeclareAttackers));
    let actions = legal_actions(&s, &CardRegistry::new());
    assert!(!actions.iter().any(|a| matches!(a, Action::DeclareAttackers { .. })));
    assert!(actions.iter().any(is_pass));
}

#[test]
fn cast_actions_are_in_sorted_object_order() {
    let mut s = GameState::new(2, 0);
    let c1 = put(&mut s, 0, Zone::Hand(0), instant_chars());
    let c2 = put(&mut s, 0, Zone::Hand(0), instant_chars());
    let c3 = put(&mut s, 0, Zone::Hand(0), instant_chars());
    add_mana(&mut s, 0, ManaColor::Red, 3);
    let actions = legal_actions(&s, &CardRegistry::new());
    let cast_ids: Vec<_> = actions
        .iter()
        .filter_map(|a| match a {
            Action::CastSpell { object_id, .. } => Some(*object_id),
            _ => None,
        })
        .collect();
    assert_eq!(cast_ids, vec![c1, c2, c3]);
}

#[test]
fn opening_hand_on_turn_1_main_phase_offers_land_and_nothing_else() {
    let mut s = GameState::new(2, 0);
    set_main_phase(&mut s);
    let land = put(&mut s, 0, Zone::Hand(0), land_chars());
    put(&mut s, 0, Zone::Hand(0), instant_chars());
    put(&mut s, 0, Zone::Hand(0), sorcery_chars());
    let actions = legal_actions(&s, &CardRegistry::new());
    assert!(actions.iter().any(|a| matches!(a, Action::PlayLand { object_id } if *object_id == land)));
    assert!(!actions.iter().any(|a| matches!(a, Action::CastSpell { .. })));
    assert_eq!(actions, vec![Action::PassPriority, Action::Concede, Action::PlayLand { object_id: land }]);
}

#[test]
fn placeholder_mana_unit_field_used() {
    let unit = ManaUnit::plain(ManaColor::Red, 0);
    assert_eq!(unit.color, ManaColor::Red);
}

#[test]
fn yes_no_choice_offers_both_answers_then_concede() {
    let mut s = GameState::new(2, 0);
    s.pending_choice = Some(PendingChoice { choosing_player: 1, context: ChoiceContext::Resolution, kind: ChoiceKind::YesNo });
    let actions = legal_actions(&s, &CardRegistry::new());
    assert_eq!(
        actions,
        vec![
            Action::SubmitResolutionChoice { response: ChoiceResponse::YesNo { answer: true } },
            Action::SubmitResolutionChoice { response: ChoiceResponse::YesNo { answer: false } },
            Action::Concede,
        ]
    );
}

#[test]
fn pick_cards_choice_picks_the_lowest_ids() {
    let mut s = GameState::new(2, 0);
    s.pending_choice = Some(PendingChoice {
        choosing_player: 0,
        context: ChoiceContext::Resolution,
        kind: ChoiceKind::PickCards { candidates: vec![9, 4, 7], min: 2, max: 3 },
    });
    let actions = legal_actions(&s, &CardRegistry::new());
    assert_eq!(
        actions,
        vec![Action::SubmitResolutionChoice { response: ChoiceResponse::PickCards { picked: vec![4, 7] } }, Action::Concede]
    );
}

fn flying_chars() -> Characteristics {
    let mut c = creature_chars(2, 2);
    c.keywords = vec![KeywordAbility::Flying];
    c
}

fn blocking_state() -> GameState {
    let mut s = GameState::new(2, 0);
    s.priority.player = 1;
    s.combat = Some(combat(CombatPhase::DeclareBlockers));
    s
}

fn attack_with(s: &mut GameState, chars: Characteristics) -> ObjectId {
    let a = put(s, 0, Zone::Battlefield, chars);
    let mut c = s.combat.take().unwrap();
    c.attackers.push(AttackerInfo { object_id: a, defender: 1, blocked_by: Vec::new() });
    s.combat = Some(c);
    a
}

fn block_sets(actions: &[Action]) -> Vec<Vec<BlockerDeclaration>> {
    actions
        .iter()
        .map(|a| match a {
            Action::DeclareBlockers { blockers } => blockers.clone(),
            other => panic!("expected DeclareBlockers, got {other:?}"),
        })
        .collect()
}

#[test]
fn flying_attacker_is_blocked_only_by_flying_or_reach() {
    let mut s = blocking_state();
    let atk = attack_with(&mut s, flying_chars());
    let _ground = put(&mut s, 1, Zone::Battlefield, creature_chars(2, 2));
    let mut reach = creature_chars(1, 3);
    reach.keywords = vec![KeywordAbility::Reach];
    let r = put(&mut s, 1, Zone::Battlefield, reach);
    let got = block_sets(&legal_actions(&s, &CardRegistry::new()));
    assert_eq!(got, vec![vec![], vec![BlockerDeclaration { blocker: r, blocking: atk }]]);
}

#[test]
fn menace_attacker_needs_two_blockers() {
    let mut s = blocking_state();
    let mut menace = creature_chars(3, 3);
    menace.keywords = vec![KeywordAbility::Menace];
    let atk = attack_with(&mut s, menace);
    let b1 = put(&mut s, 1, Zone::Battlefield, creature_chars(1, 1));
    let b2 = put(&mut s, 1, Zone::Battlefield, creature_chars(2, 2));
    let got = block_sets(&legal_actions(&s, &CardRegistry::new()));
    assert_eq!(
        got,
        vec![vec![], vec![BlockerDeclaration { blocker: b1, blocking: atk }, BlockerDeclaration { blocker: b2, blocking: atk }]]
    );
}

#[test]
fn interchangeable_blockers_are_offered_once() {
    let mut s = blocking_state();
    let atk = attack_with(&mut s, creature_chars(2, 2));
    let b1 = put(&mut s, 1, Zone::Battlefield, creature_chars(1, 1));
    let _b2 = put(&mut s, 1, Zone::Battlefield, creature_chars(1, 1));
    let got = block_sets(&legal_actions(&s, &CardRegistry::new()));
    assert_eq!(got[0], Vec::<BlockerDeclaration>::new());
    assert!(got.contains(&vec![BlockerDeclaration { blocker: b1, blocking: atk }]));
    assert_eq!(got.len(), 3);
}

#[test]
fn tapped_creatures_do_not_block() {
    let mut s = blocking_state();
    attack_with(&mut s, creature_chars(2, 2));
    let b = put(&mut s, 1, Zone::Battlefield, creature_chars(1, 1));
    s.objects.get_mut(b).unwrap().status.tapped = true;
    let got = block_sets(&legal_actions(&s, &CardRegistry::new()));
    assert_eq!(got, vec![Vec::<BlockerDeclaration>::new()]);
}
