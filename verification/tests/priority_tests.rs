use arcana_core::priority::{
    apnap_order, next_in_turn_order, receives_priority_at, PriorityOutcome, PriorityState,
    SpecialAction,
};
use arcana_core::turn::Step;
use arcana_core::types::PlayerId;
use std::collections::HashSet;

fn fresh(player: PlayerId) -> PriorityState {
    PriorityState { player, consecutive_passes: 0, special_action: None }
}

#[test]
fn next_in_turn_order_wraps() {
    assert_eq!(next_in_turn_order(0, 2), 1);
    assert_eq!(next_in_turn_order(1, 2), 0);
    assert_eq!(next_in_turn_order(2, 3), 0);
    assert_eq!(next_in_turn_order(0, 4), 1);
}

#[test]
fn apnap_starts_with_active_player() {
    let order: Vec<_> = apnap_order(0, 2).collect();
    assert_eq!(order, vec![0, 1]);

    let order: Vec<_> = apnap_order(1, 2).collect();
    assert_eq!(order, vec![1, 0]);
}

#[test]
fn apnap_order_4_players() {
    let order: Vec<_> = apnap_order(2, 4).collect();
    assert_eq!(order, vec![2, 3, 0, 1]);
}

#[test]
fn apnap_visits_every_player_once() {
    let order: Vec<_> = apnap_order(1, 5).collect();
    let unique: HashSet<_> = order.iter().copied().collect();
    assert_eq!(order.len(), 5);
    assert_eq!(unique.len(), 5);
}

#[test]
fn receives_priority_excludes_untap_and_cleanup() {
    assert!(!receives_priority_at(Step::Untap));
    assert!(!receives_priority_at(Step::Cleanup));
    assert!(receives_priority_at(Step::Upkeep));
    assert!(receives_priority_at(Step::Draw));
    assert!(receives_priority_at(Step::Main));
    assert!(receives_priority_at(Step::BeginCombat));
    assert!(receives_priority_at(Step::DeclareAttackers));
    assert!(receives_priority_at(Step::DeclareBlockers));
    assert!(receives_priority_at(Step::CombatDamage));
    assert!(receives_priority_at(Step::CombatDamageRegular));
    assert!(receives_priority_at(Step::EndCombat));
    assert!(receives_priority_at(Step::End));
}

#[test]
fn give_to_sets_player_and_clears_passes() {
    let mut ps = PriorityState { player: 0, consecutive_passes: 2, special_action: None };
    ps.give_to(1);
    assert_eq!(ps.player, 1);
    assert_eq!(ps.consecutive_passes, 0);
}

#[test]
fn pass_rotates_to_next_in_two_player() {
    let mut ps = fresh(0);
    let out = ps.pass(2);
    assert_eq!(out, PriorityOutcome::PassedTo(1));
    assert_eq!(ps.player, 1);
    assert_eq!(ps.consecutive_passes, 1);
}

#[test]
fn second_pass_reports_everyone_passed_in_two_player() {
    let mut ps = fresh(0);
    ps.pass(2);
    let out = ps.pass(2);
    assert_eq!(out, PriorityOutcome::EveryonePassed);
    assert_eq!(ps.consecutive_passes, 2);
    assert_eq!(ps.player, 1);
}

#[test]
fn pass_rotation_in_three_player() {
    let mut ps = fresh(0);
    let a = ps.pass(3);
    let b = ps.pass(3);
    let c = ps.pass(3);
    assert_eq!(a, PriorityOutcome::PassedTo(1));
    assert_eq!(b, PriorityOutcome::PassedTo(2));
    assert_eq!(c, PriorityOutcome::EveryonePassed);
    assert_eq!(ps.consecutive_passes, 3);
}

#[test]
fn one_player_game_one_pass_is_everyone() {
    let mut ps = fresh(0);
    let out = ps.pass(1);
    assert_eq!(out, PriorityOutcome::EveryonePassed);
}

#[test]
fn record_action_resets_pass_counter_keeps_player() {
    let mut ps = fresh(0);
    ps.pass(2);
    ps.record_action();
    assert_eq!(ps.consecutive_passes, 0);
    assert_eq!(ps.player, 1);
}

#[test]
fn action_then_full_round_of_passes_still_ends() {
    let mut ps = fresh(0);
    ps.record_action();
    assert_eq!(ps.consecutive_passes, 0);
    let a = ps.pass(2);
    let b = ps.pass(2);
    assert_eq!(a, PriorityOutcome::PassedTo(1));
    assert_eq!(b, PriorityOutcome::EveryonePassed);
}

#[test]
fn everyone_passed_predicate_mirrors_counter() {
    let mut ps = fresh(0);
    assert!(!ps.everyone_passed(2));
    ps.pass(2);
    assert!(!ps.everyone_passed(2));
    ps.pass(2);
    assert!(ps.everyone_passed(2));
}

#[test]
fn begin_special_action_sets_flags() {
    let mut ps = fresh(0);
    ps.consecutive_passes = 3;
    ps.begin_special_action(SpecialAction::MulliganDecision, 1);
    assert_eq!(ps.player, 1);
    assert_eq!(ps.consecutive_passes, 0);
    assert_eq!(ps.special_action, Some(SpecialAction::MulliganDecision));
    assert!(ps.in_special_action());
}

#[test]
fn end_special_action_clears_flag_only() {
    let mut ps = fresh(0);
    ps.begin_special_action(SpecialAction::DiscardToHandSize, 1);
    ps.end_special_action();
    assert!(ps.special_action.is_none());
    assert!(!ps.in_special_action());
    assert_eq!(ps.player, 1);
}

#[test]
fn full_round_of_passes_from_any_holder_ends_in_four_player() {
    let mut ps = fresh(2);
    let outs: Vec<_> = (0..4).map(|_| ps.pass(4)).collect();
    assert_eq!(
        outs,
        vec![
            PriorityOutcome::PassedTo(3),
            PriorityOutcome::PassedTo(0),
            PriorityOutcome::PassedTo(1),
            PriorityOutcome::EveryonePassed,
        ]
    );
    assert_eq!(ps.player, 1);
}

#[test]
fn round_of_passes_from_player_two_in_three_player() {
    let mut ps = fresh(2);
    ps.record_action();
    assert_eq!(ps.pass(3), PriorityOutcome::PassedTo(0));
    assert_eq!(ps.pass(3), PriorityOutcome::PassedTo(1));
    assert_eq!(ps.pass(3), PriorityOutcome::EveryonePassed);
}
