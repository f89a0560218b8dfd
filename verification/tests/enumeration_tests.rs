use arcana_core::enumeration::{
    reduce_cost_by_convoke, ConvokePayment,
    combinations, enumerate_equivalence_subsets, enumerate_mode_combinations, generic_total,
    mana_color_index, permutations, pool_color_counts, recurse_distributions, reduce_generic_cost, total_pips,
    unmet_cost_colors, MAX_COMBAT_ENUM,
};
use arcana_core::mana::{ManaCost, ManaPool};
use arcana_core::objects::ObjectId;
use arcana_core::registry::{ModalSpec, ModeClause};
use arcana_core::types::ManaColor;

fn parse(s: &str) -> ManaCost {
    match ManaCost::parse(s) {
        Ok(c) => c,
        Err(e) => panic!("failed to parse {s:?}: {e:?}"),
    }
}

fn modal(n: usize, min_modes: usize, max_modes: usize) -> ModalSpec {
    let clauses = (0..n)
        .map(|i| ModeClause { text: format!("mode {i}"), target_requirements: vec![] })
        .collect();
    ModalSpec { min_modes, max_modes, clauses }
}

#[test]
fn permutations_capped_and_identity_first() {
    // 9 blockers => 9! = 362880 orderings uncapped. The cap bounds it,
    // and the identity (input) order is emitted first so a canonical
    // OrderBlockers is always available.
    let items: Vec<ObjectId> = (1..=9).collect();
    let perms = permutations(&items);
    assert!(perms.len() <= MAX_COMBAT_ENUM, "permutations must be capped, got {}", perms.len());
    assert_eq!(perms[0], items, "identity ordering must be emitted first");
    // Small inputs stay fully exhaustive (3! = 6).
    assert_eq!(permutations(&[1, 2, 3]).len(), 6);
}

#[test]
fn equivalence_subsets_respect_cap() {
    // 30 distinct keys => 2^30 subsets uncapped (would OOM). The cap
    // keeps it bounded; the empty subset (canonical) is generated first.
    let items: Vec<u32> = (0..30).collect();
    let subs = enumerate_equivalence_subsets(&items, 30, MAX_COMBAT_ENUM, |&x| x);
    assert!(subs.len() <= MAX_COMBAT_ENUM, "subset enumeration must be capped, got {}", subs.len());
    assert!(subs.iter().any(|s| s.is_empty()), "empty subset present");
    // Mana callers pass usize::MAX and stay bounded by max_size instead:
    // size<=2 over 5 distinct keys is small and fully enumerated.
    let bounded = enumerate_equivalence_subsets(&[1u32, 2, 3, 4, 5], 2, usize::MAX, |&x| x);
    assert_eq!(bounded.len(), 1 + 5 + 10); // C(5,0)+C(5,1)+C(5,2)
}

#[test]
fn permutations_of_three_in_order() {
    let perms = permutations(&[1, 2, 3]);
    assert_eq!(
        perms,
        vec![vec![1, 2, 3], vec![1, 3, 2], vec![2, 1, 3], vec![2, 3, 1], vec![3, 1, 2], vec![3, 2, 1]]
    );
    assert_eq!(permutations(&[]), vec![Vec::<ObjectId>::new()]);
}

#[test]
fn permutations_cap_is_exact_prefix() {
    // 7! = 5040 > 1024: exactly the first 1024 orderings are kept.
    let items: Vec<ObjectId> = (1..=7).collect();
    let perms = permutations(&items);
    assert_eq!(perms.len(), MAX_COMBAT_ENUM);
    // 6! = 720 orderings start with 1, then those starting with 2.
    assert_eq!(perms[719], vec![1, 7, 6, 5, 4, 3, 2]);
    assert_eq!(perms[720], vec![2, 1, 3, 4, 5, 6, 7]);
}

#[test]
fn equivalence_subsets_collapse_interchangeable_items() {
    let subs = enumerate_equivalence_subsets(&[7u32, 7, 8], 3, usize::MAX, |&x| x);
    assert_eq!(subs, vec![vec![], vec![8], vec![7], vec![7, 8], vec![7, 7], vec![7, 7, 8]]);
    // With room for one item only.
    let one = enumerate_equivalence_subsets(&[7u32, 7, 8], 1, usize::MAX, |&x| x);
    assert_eq!(one, vec![vec![], vec![8], vec![7]]);
    // A zero cap emits nothing.
    assert!(enumerate_equivalence_subsets(&[7u32], 1, 0, |&x| x).is_empty());
}

#[test]
fn combinations_in_item_order() {
    assert_eq!(
        combinations(&[1, 2, 3, 4], 2),
        vec![vec![1, 2], vec![1, 3], vec![1, 4], vec![2, 3], vec![2, 4], vec![3, 4]]
    );
    assert_eq!(combinations(&[1, 2, 3], 0), vec![Vec::<ObjectId>::new()]);
    assert!(combinations(&[1, 2, 3], 4).is_empty());
    assert_eq!(combinations(&[5, 6, 7], 3), vec![vec![5, 6, 7]]);
}

#[test]
fn mode_combinations_of_a_four_mode_command() {
    // Choose two of four: six subsets, in bitmask order.
    let combos = enumerate_mode_combinations(&modal(4, 2, 2));
    let got: Vec<Vec<usize>> = combos.into_iter().map(|c| c.mode_indices).collect();
    assert_eq!(got, vec![vec![0, 1], vec![0, 2], vec![1, 2], vec![0, 3], vec![1, 3], vec![2, 3]]);
}

#[test]
fn mode_combinations_one_or_two_of_three() {
    let combos = enumerate_mode_combinations(&modal(3, 1, 2));
    let got: Vec<Vec<usize>> = combos.into_iter().map(|c| c.mode_indices).collect();
    assert_eq!(got, vec![vec![0], vec![1], vec![0, 1], vec![2], vec![0, 2], vec![1, 2]]);
    // Zero modes allowed: the empty choice.
    let none = enumerate_mode_combinations(&modal(2, 0, 0));
    assert_eq!(none.len(), 1);
    assert!(none[0].mode_indices.is_empty());
}

#[test]
fn reduce_generic_cost_drains_left_to_right() {
    assert_eq!(reduce_generic_cost(&parse("{3}{G}"), 2), parse("{1}{G}"));
    assert_eq!(reduce_generic_cost(&parse("{3}{G}"), 3), parse("{G}"));
    assert_eq!(reduce_generic_cost(&parse("{3}{G}"), 9), parse("{G}"));
    assert_eq!(reduce_generic_cost(&parse("{2}{R}{1}"), 2), parse("{R}{1}"));
    assert_eq!(reduce_generic_cost(&parse("{2}{R}{1}"), 0), parse("{2}{R}{1}"));
    assert_eq!(reduce_generic_cost(&parse("{X}{U}{U}"), 4), parse("{X}{U}{U}"));
}

#[test]
fn generic_and_pip_totals() {
    assert_eq!(generic_total(&parse("{2}{G}{1}")), 3);
    assert_eq!(generic_total(&parse("{W}{U}")), 0);
    assert_eq!(total_pips(&parse("{2}{G}{X}")), 4);
    assert_eq!(total_pips(&parse("")), 0);
}

#[test]
fn pool_color_counts_by_index() {
    let mut pool = ManaPool::new();
    pool.add_mana(ManaColor::Red, 2, 1);
    pool.add_mana(ManaColor::Green, 1, 2);
    let c = pool_color_counts(&pool);
    assert_eq!(c, [0, 0, 0, 2, 1, 0]);
    assert_eq!(mana_color_index(ManaColor::White), 0);
    assert_eq!(mana_color_index(ManaColor::Colorless), 5);
}

#[test]
fn unmet_cost_colors_lists_missing_colored_pips() {
    let mut pool = ManaPool::new();
    pool.add_mana(ManaColor::Red, 1, 1);
    let cost = parse("{R}{R}{G}{1}");
    assert_eq!(unmet_cost_colors(Some(&cost), &pool), vec![ManaColor::Red, ManaColor::Green]);
    pool.add_mana(ManaColor::Red, 1, 1);
    assert_eq!(unmet_cost_colors(Some(&cost), &pool), vec![ManaColor::Green]);
    assert!(unmet_cost_colors(None, &pool).is_empty());
    // Colorless and generic needs are not colors to chase.
    assert!(unmet_cost_colors(Some(&parse("{C}{3}")), &ManaPool::new()).is_empty());
}

fn distributions(power: u32, blockers: &[(ObjectId, u32)], trample: bool) -> Vec<Vec<(ObjectId, u32)>> {
    let mut out = Vec::new();
    recurse_distributions(power, blockers, Vec::new(), trample, &mut out);
    out
}

#[test]
fn distributions_over_two_blockers() {
    // 3 damage, each blocker needs 2: all on the first, or 2 then 1.
    let got = distributions(3, &[(10, 2), (11, 2)], false);
    assert_eq!(got, vec![vec![(10, 3)], vec![(10, 2), (11, 1)]]);
    // 4 damage: 4 / 2+2 / 3+1.
    let got = distributions(4, &[(10, 2), (11, 2)], false);
    assert_eq!(got, vec![vec![(10, 4)], vec![(10, 2), (11, 2)], vec![(10, 3), (11, 1)]]);
}

#[test]
fn distributions_with_trample_overflow() {
    // A single blocker needing 2, trample, 4 power: all on it, or 2 or 3
    // with the rest to the player.
    let got = distributions(4, &[(10, 2)], true);
    assert_eq!(got, vec![vec![(10, 4)], vec![(10, 2)], vec![(10, 3)]]);
    // Without trample only the full dump is legal.
    assert_eq!(distributions(4, &[(10, 2)], false), vec![vec![(10, 4)]]);
}

#[test]
fn distributions_edge_cases() {
    // No damage: one empty distribution.
    assert_eq!(distributions(0, &[(10, 2)], false), vec![Vec::<(ObjectId, u32)>::new()]);
    // Damage but no blocker: nothing to assign.
    assert!(distributions(3, &[], true).is_empty());
    // A blocker already dealt lethal damage (0) still takes at least 1.
    assert_eq!(distributions(2, &[(10, 0), (11, 5)], false), vec![vec![(10, 2)], vec![(10, 1), (11, 1)]]);
}

#[test]
fn distributions_are_capped() {
    let blockers: Vec<(ObjectId, u32)> = (1..=8).map(|i| (i, 1)).collect();
    let got = distributions(20, &blockers, true);
    assert_eq!(got.len(), MAX_COMBAT_ENUM);
    assert_eq!(got[0], vec![(1, 20)]);
}

fn convoke(cost: &str, pay: Vec<ConvokePayment>) -> Option<Vec<arcana_core::mana::ManaCostComponent>> {
    let c = arcana_core::mana::ManaCost::parse(cost).unwrap();
    reduce_cost_by_convoke(&c, &pay).map(|m| m.components)
}

#[test]
fn convoke_pays_generic_then_matching_color() {
    let want = arcana_core::mana::ManaCost::parse("{1}{G}").unwrap().components;
    assert_eq!(convoke("{2}{G}{G}", vec![ConvokePayment::Generic, ConvokePayment::Color(ManaColor::Green)]), Some(want));
}

#[test]
fn convoke_with_two_colors_takes_one_pip_of_each() {
    let want = arcana_core::mana::ManaCost::parse("{1}{U}").unwrap().components;
    let pay = vec![ConvokePayment::Generic, ConvokePayment::Generic, ConvokePayment::Color(ManaColor::White)];
    assert_eq!(convoke("{3}{W}{U}", pay), Some(want));
}

#[test]
fn convoke_overpaying_generic_is_refused() {
    assert_eq!(convoke("{G}", vec![ConvokePayment::Generic]), None);
}

#[test]
fn convoke_paying_an_absent_color_is_refused() {
    assert_eq!(convoke("{1}", vec![ConvokePayment::Color(ManaColor::Red)]), None);
    assert_eq!(convoke("{R}", vec![ConvokePayment::Color(ManaColor::Red), ConvokePayment::Color(ManaColor::Red)]), None);
}

#[test]
fn convoke_colorless_payment_is_refused() {
    assert_eq!(convoke("{2}", vec![ConvokePayment::Color(ManaColor::Colorless)]), None);
}

#[test]
fn convoke_with_no_payment_keeps_the_cost() {
    let want = arcana_core::mana::ManaCost::parse("{2}{B}").unwrap().components;
    assert_eq!(convoke("{2}{B}", Vec::new()), Some(want));
}
