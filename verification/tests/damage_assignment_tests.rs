use arcana_core::legal_actions::{enumerate_distributions, enumerate_distributions_for_attacker};
use arcana_core::objects::{Characteristics, GameObject, ObjectId};
use arcana_core::state::GameState;
use arcana_core::types::{KeywordAbility, PlayerId, PtValue, TypeLine};
use arcana_core::zones::Zone;

fn creature(s: &mut GameState, owner: PlayerId, p: i32, t: i32, keywords: Vec<KeywordAbility>) -> ObjectId {
    let id = s.allocate_object_id();
    let chars = Characteristics {
        types: TypeLine::CREATURE.into(),
        power: Some(PtValue::Fixed(p)),
        toughness: Some(PtValue::Fixed(t)),
        keywords,
        ..Default::default()
    };
    let mut obj = GameObject::new(id, owner, Zone::Battlefield, 0, chars);
    obj.controller = owner;
    s.objects.insert(obj);
    id
}

#[test]
fn enumerate_combat_damage_assignments_covers_legal_distributions() {
    let mut s = GameState::new(2, 0);
    let atk = creature(&mut s, 0, 5, 5, vec![]);
    let b1 = creature(&mut s, 1, 1, 2, vec![]);
    let b2 = creature(&mut s, 1, 1, 4, vec![]);
    let dists = enumerate_distributions_for_attacker(&s, atk, &vec![b1, b2]);
    assert!(dists.contains(&vec![(b1, 5)]), "all damage to first blocker is legal");
    assert!(dists.contains(&vec![(b1, 2), (b2, 3)]), "minimum-lethal-then-rest is legal");
    assert!(dists.contains(&vec![(b1, 3), (b2, 2)]), "overkill-first, rest-to-second is legal");
    assert!(dists.contains(&vec![(b1, 4), (b2, 1)]));
    assert!(!dists.contains(&vec![(b1, 1), (b2, 4)]));
    assert_eq!(dists, vec![vec![(b1, 5)], vec![(b1, 2), (b2, 3)], vec![(b1, 3), (b2, 2)], vec![(b1, 4), (b2, 1)]]);
}

#[test]
fn enumerate_trample_single_blocker_covers_overflow_range() {
    let mut s = GameState::new(2, 0);
    let atk = creature(&mut s, 0, 5, 5, vec![KeywordAbility::Trample]);
    let blk = creature(&mut s, 1, 1, 2, vec![]);
    let dists = enumerate_distributions_for_attacker(&s, atk, &vec![blk]);
    assert!(dists.contains(&vec![(blk, 2)]), "lethal only, max overflow");
    assert!(dists.contains(&vec![(blk, 3)]));
    assert!(dists.contains(&vec![(blk, 4)]));
    assert!(dists.contains(&vec![(blk, 5)]), "all damage to blocker");
    assert!(!dists.contains(&vec![(blk, 1)]));
    assert_eq!(dists.len(), 4);
}

#[test]
fn enumerate_distributions_skips_blockers_killed_in_first_strike() {
    let mut s = GameState::new(2, 0);
    let atk = creature(&mut s, 0, 4, 4, vec![KeywordAbility::Trample]);
    let _dead = creature(&mut s, 1, 1, 1, vec![]);
    let live = creature(&mut s, 1, 2, 3, vec![]);
    let dists = enumerate_distributions_for_attacker(&s, atk, &vec![live]);
    assert!(dists.iter().all(|d| d.iter().all(|(id, _)| *id == live)));
    assert_eq!(dists, vec![vec![(live, 4)], vec![(live, 3)]]);
}

#[test]
fn deathtouch_makes_one_damage_lethal_and_marked_damage_counts() {
    let mut s = GameState::new(2, 0);
    let atk = creature(&mut s, 0, 3, 3, vec![KeywordAbility::Deathtouch]);
    let b1 = creature(&mut s, 1, 1, 5, vec![]);
    let b2 = creature(&mut s, 1, 1, 5, vec![]);
    let dists = enumerate_distributions_for_attacker(&s, atk, &vec![b1, b2]);
    assert_eq!(dists, vec![vec![(b1, 3)], vec![(b1, 1), (b2, 2)], vec![(b1, 2), (b2, 1)]]);
    let plain = creature(&mut s, 0, 3, 3, vec![]);
    s.objects.get_mut(b1).unwrap().damage_marked = 4;
    let dists = enumerate_distributions_for_attacker(&s, plain, &vec![b1, b2]);
    assert_eq!(dists, vec![vec![(b1, 3)], vec![(b1, 1), (b2, 2)], vec![(b1, 2), (b2, 1)]]);
}

#[test]
fn zero_power_assigns_nothing_and_no_blocker_gets_nothing() {
    assert_eq!(enumerate_distributions(0, &vec![(7, 2)], false), vec![Vec::<(ObjectId, u32)>::new()]);
    assert!(enumerate_distributions(3, &vec![], false).is_empty());
}

#[test]
fn damage_distributions_are_capped() {
    let blockers: Vec<(ObjectId, u32)> = (1..=8).map(|i| (i, 1)).collect();
    let dists = enumerate_distributions(40, &blockers, false);
    assert_eq!(dists.len(), 1024);
    assert_eq!(dists[0], vec![(1, 40)]);
}
