use arcana_core::legal_actions::Action;
use arcana_core::record::GameRecord;
use arcana_core::state::GameResult;

#[test]
fn new_record_is_empty_until_actions_are_recorded() {
    let mut r = GameRecord::new(vec![vec![1, 2, 3], vec![4]], 42);
    assert!(r.is_empty());
    assert_eq!(r.len(), 0);
    assert_eq!(r.seed, 42);
    assert_eq!(r.decks, vec![vec![1, 2, 3], vec![4]]);
    assert!(r.result.is_none());
    r.actions.push(Action::PassPriority);
    r.actions.push(Action::Concede);
    r.result = Some(GameResult::Win(1));
    assert!(!r.is_empty());
    assert_eq!(r.len(), 2);
}
