use arcana_core::events::GameEvent;
use arcana_core::mana::ManaCost;
use arcana_core::objects::{Characteristics, GameObject, ObjectId};
use arcana_core::registry::CardRegistry;
use arcana_core::script::{
    all_players, attackers_blocked_by, blockers_of, cards_discarded_this_turn, cards_drawn_this_turn,
    commodity_kind_by_name, count_matching, creature_attacked_this_turn, creatures_died_this_turn,
    creatures_died_this_turn_controlled_by, creatures_of_subtype_died_this_turn, devotion,
    distinct_card_types_in_graveyard, distinct_mana_values, domain, entered_battlefield_this_turn,
    entered_this_turn_matching, graveyard_ids_matching, graveyard_matching, graveyard_size, hand_size,
    ids_matching, library_size, life, life_gained_this_turn, life_lost_this_turn,
    max_cmc_of, max_power_of, max_spells_by_a_player_last_turn, name_of, opponents,
    player_attacked_this_turn, power_of, source_counter_count, spells_cast_last_turn_total,
    spells_cast_this_turn, spells_cast_this_turn_by, subtype_filter, target_controller, toughness_of,
};
use arcana_core::state::{AttackerInfo, BlockerInfo, CombatState, GameState};
use arcana_core::targets::{ControllerConstraint, ObjectFilter};
use arcana_core::types::{
    ColorSet, CommodityToken, CounterKind, PlayerId, PtValue, SubtypeSet, TypeLine,
};
use arcana_core::zones::Zone;

fn creature_chars(p: i32, t: i32) -> Characteristics {
    Characteristics {
        colors: ColorSet::green(),
        types: TypeLine::CREATURE.into(),
        power: Some(PtValue::Fixed(p)),
        toughness: Some(PtValue::Fixed(t)),
        ..Default::default()
    }
}

fn put(state: &mut GameState, zone: Zone, owner: PlayerId, chars: Characteristics) -> ObjectId {
    let id = state.allocate_object_id();
    let mut o = GameObject::new(id, owner, zone, 0, chars);
    o.controller = owner;
    state.objects.insert(o);
    id
}

#[test]
fn count_and_ids_matching_filter_the_battlefield() {
    let mut s = GameState::new(2, 0);
    put(&mut s, Zone::Battlefield, 0, creature_chars(2, 2));
    put(&mut s, Zone::Battlefield, 0, creature_chars(4, 4));
    let land = Characteristics { types: TypeLine::LAND.into(), ..Default::default() };
    put(&mut s, Zone::Battlefield, 1, land);
    let f = ObjectFilter::creature();
    assert_eq!(count_matching(&s, &f, 0), 2);
    assert_eq!(ids_matching(&s, &f, 0).len(), 2);
    let yours = ObjectFilter::creature().controlled_by(ControllerConstraint::You);
    assert_eq!(count_matching(&s, &yours, 0), 2);
    assert_eq!(count_matching(&s, &yours, 1), 0);
}

#[test]
fn devotion_counts_colored_pips_among_your_permanents() {
    let mut s = GameState::new(2, 0);
    let with_cost = |cost: &str| Characteristics {
        mana_cost: Some(ManaCost::parse(cost).unwrap()),
        types: TypeLine::CREATURE.into(),
        ..Default::default()
    };
    put(&mut s, Zone::Battlefield, 0, with_cost("{G}{G}"));
    put(&mut s, Zone::Battlefield, 0, with_cost("{1}{G}"));
    put(&mut s, Zone::Battlefield, 0, with_cost("{W}{U}"));
    put(&mut s, Zone::Battlefield, 1, with_cost("{G}{G}"));

    assert_eq!(devotion(&s, 0, ColorSet::green()), 3, "2 + 1 green pips among your permanents (opponent's excluded)");
    assert_eq!(devotion(&s, 0, ColorSet::white()), 1);
    assert_eq!(devotion(&s, 0, ColorSet::white().union(ColorSet::blue())), 2);
    assert_eq!(devotion(&s, 0, ColorSet::red()), 0);
    assert_eq!(devotion(&s, 99, ColorSet::green()), 0, "invalid player → 0");
}

#[test]
fn devotion_counts_hybrid_pips_for_each_named_color() {
    let mut s = GameState::new(2, 0);
    put(
        &mut s,
        Zone::Battlefield,
        0,
        Characteristics {
            mana_cost: Some(ManaCost::parse("{G/W}").unwrap()),
            types: TypeLine::CREATURE.into(),
            ..Default::default()
        },
    );
    assert_eq!(devotion(&s, 0, ColorSet::green()), 1);
    assert_eq!(devotion(&s, 0, ColorSet::white()), 1);
    assert_eq!(devotion(&s, 0, ColorSet::black()), 0);
}

#[test]
fn devotion_to_no_colors_is_zero() {
    let mut s = GameState::new(2, 0);
    put(
        &mut s,
        Zone::Battlefield,
        0,
        Characteristics { mana_cost: Some(ManaCost::parse("{G}{G}").unwrap()), ..Default::default() },
    );
    assert_eq!(devotion(&s, 0, ColorSet::new()), 0);
}

#[test]
fn power_toughness_of_missing_is_zero() {
    let mut s = GameState::new(2, 0);
    let c = put(&mut s, Zone::Battlefield, 0, creature_chars(3, 5));
    assert_eq!(power_of(&s, c), 3);
    assert_eq!(toughness_of(&s, c), 5);
    assert_eq!(power_of(&s, 9999), 0);
    assert_eq!(toughness_of(&s, 9999), 0);
}

#[test]
fn zone_sizes_and_life_are_total() {
    let mut s = GameState::new(2, 0);
    put(&mut s, Zone::Hand(0), 0, creature_chars(1, 1));
    put(&mut s, Zone::Hand(0), 0, creature_chars(1, 1));
    put(&mut s, Zone::Graveyard(0), 0, creature_chars(1, 1));
    assert_eq!(hand_size(&s, 0), 2);
    assert_eq!(graveyard_size(&s, 0), 1);
    assert_eq!(library_size(&s, 0), 0);
    assert_eq!(life(&s, 0), s.player(0).life);
    assert_eq!(hand_size(&s, 99), 0);
    assert_eq!(life(&s, 99), 0);
    assert_eq!(library_size(&s, 99), 0);
}

#[test]
fn subtype_filter_resolves_or_matches_nothing() {
    let mut reg = CardRegistry::new();
    let goblin = reg.interner_mut().intern("Goblin");
    let mut s = GameState::new(2, 0);
    let mut gob = creature_chars(1, 1);
    gob.subtypes.insert(goblin);
    put(&mut s, Zone::Battlefield, 0, gob);
    put(&mut s, Zone::Battlefield, 0, creature_chars(2, 2));
    let f = subtype_filter(&reg, "Goblin");
    assert_eq!(count_matching(&s, &f, 0), 1);
    let none = subtype_filter(&reg, "Eldrazi");
    assert_eq!(count_matching(&s, &none, 0), 0);
}

#[test]
fn numeric_builders_narrow_the_set() {
    let mut s = GameState::new(2, 0);
    let mut big = creature_chars(5, 5);
    big.mana_cost = Some(ManaCost::parse("{4}{G}").unwrap());
    put(&mut s, Zone::Battlefield, 0, big);
    let mut small = creature_chars(1, 1);
    small.mana_cost = Some(ManaCost::parse("{G}").unwrap());
    put(&mut s, Zone::Battlefield, 0, small);
    assert_eq!(count_matching(&s, &ObjectFilter::creature().with_max_cmc(2), 0), 1);
    assert_eq!(count_matching(&s, &ObjectFilter::creature().with_min_power(3), 0), 1);
}

#[test]
fn color_exclusion_and_tap_filters() {
    let mut s = GameState::new(2, 0);
    let g = put(&mut s, Zone::Battlefield, 0, creature_chars(2, 2));
    let mut blk = creature_chars(2, 2);
    blk.colors = ColorSet::black();
    put(&mut s, Zone::Battlefield, 0, blk);
    let nonblack = ObjectFilter::creature().without_colors(ColorSet::black());
    assert_eq!(count_matching(&s, &nonblack, 0), 1);
    s.objects.get_mut(g).unwrap().tap();
    assert_eq!(count_matching(&s, &ObjectFilter::creature().tapped_only(), 0), 1);
    assert_eq!(count_matching(&s, &ObjectFilter::creature().untapped_only(), 0), 1);
}

#[test]
fn target_controller_reads_object_else_default() {
    let mut s = GameState::new(2, 0);
    let c = put(&mut s, Zone::Battlefield, 1, creature_chars(1, 1));
    assert_eq!(target_controller(&s, c, 0), 1);
    assert_eq!(target_controller(&s, 9999, 0), 0, "missing object → falls back to default");
}

#[test]
fn player_lists_for_each_player_effects() {
    let s = GameState::new(3, 0);
    assert_eq!(all_players(&s), vec![0, 1, 2]);
    assert_eq!(opponents(&s, 1), vec![0, 2]);
    assert_eq!(opponents(&s, 0), vec![1, 2]);
}

#[test]
fn graveyard_matching_respects_filter() {
    let mut s = GameState::new(2, 0);
    put(&mut s, Zone::Graveyard(0), 0, creature_chars(2, 2));
    let inst = Characteristics { types: TypeLine::INSTANT.into(), ..Default::default() };
    put(&mut s, Zone::Graveyard(0), 0, inst);
    assert_eq!(graveyard_matching(&s, &ObjectFilter::creature(), 0, 0), 1);
    assert_eq!(graveyard_size(&s, 0), 2);
}

#[test]
fn this_turn_slice_respects_cursor() {
    let mut s = GameState::new(2, 0);
    s.emit(GameEvent::DrawCard { player: 0, object_id: 1 });
    s.turn_event_log_start = s.event_log.len();
    s.emit(GameEvent::DrawCard { player: 0, object_id: 2 });
    s.emit(GameEvent::DrawCard { player: 0, object_id: 3 });
    s.emit(GameEvent::DrawCard { player: 1, object_id: 4 });
    assert_eq!(cards_drawn_this_turn(&s, 0), 2, "pre-turn draw is excluded; both this-turn draws by p0 count");
    assert_eq!(cards_drawn_this_turn(&s, 1), 1);
}

#[test]
fn source_counter_count_reads_the_source_object() {
    let mut s = GameState::new(2, 0);
    let src = put(&mut s, Zone::Battlefield, 0, Characteristics::default());
    let lore = CounterKind::Lore;
    assert_eq!(source_counter_count(&s, src, lore), 0);
    s.objects.get_mut(src).unwrap().add_counters(lore, 3);
    assert_eq!(source_counter_count(&s, src, lore), 3);
    assert_eq!(source_counter_count(&s, src, CounterKind::PlusOnePlusOne), 0);
    assert_eq!(source_counter_count(&s, 99_999, lore), 0);
}

#[test]
fn cards_discarded_this_turn_counts_per_player() {
    let mut s = GameState::new(2, 0);
    s.turn_event_log_start = 0;
    s.emit(GameEvent::Discarded { player: 0, object_id: 1 });
    s.emit(GameEvent::Discarded { player: 0, object_id: 2 });
    assert_eq!(cards_discarded_this_turn(&s, 0), 2);
    assert_eq!(cards_discarded_this_turn(&s, 1), 0);
}

#[test]
fn creatures_of_subtype_died_this_turn_via_lki() {
    let mut s = GameState::new(2, 0);
    let mut reg = CardRegistry::new();
    let zubera = reg.interner_mut().intern("Zubera");
    let _ = reg.interner_mut().intern("Goblin");

    let mut subtypes = SubtypeSet::default();
    subtypes.insert(zubera);
    let zubera_chars = Characteristics {
        types: TypeLine::CREATURE.into(),
        subtypes,
        power: Some(PtValue::Fixed(1)),
        toughness: Some(PtValue::Fixed(1)),
        ..Default::default()
    };
    let goblin_chars = creature_chars(2, 2);

    let z1 = put(&mut s, Zone::Battlefield, 0, zubera_chars.clone());
    let z2 = put(&mut s, Zone::Battlefield, 0, zubera_chars);
    let g = put(&mut s, Zone::Battlefield, 0, goblin_chars);
    for id in [z1, z2, g] {
        let obj = s.objects.get(id).unwrap().clone();
        s.lki.insert(id, obj);
    }
    s.turn_event_log_start = 0;
    s.emit(GameEvent::Dies { object_id: z1 });
    s.emit(GameEvent::Dies { object_id: z2 });
    s.emit(GameEvent::Dies { object_id: g });

    assert_eq!(creatures_of_subtype_died_this_turn(&s, &reg, "Zubera"), 2);
    assert_eq!(creatures_of_subtype_died_this_turn(&s, &reg, "Goblin"), 0);
    assert_eq!(creatures_of_subtype_died_this_turn(&s, &reg, "Sliver"), 0);
}

#[test]
fn name_of_returns_the_interned_handle_for_same_name_matching() {
    let mut reg = CardRegistry::new();
    let llanowar = reg.interner_mut().intern("Llanowar Elves");
    let mut s = GameState::new(2, 0);
    let named = Characteristics { name: llanowar, types: TypeLine::CREATURE.into(), ..Default::default() };
    let id = put(&mut s, Zone::Battlefield, 0, named);
    let id2 = put(&mut s, Zone::Library(0), 0, Characteristics { name: llanowar, ..Default::default() });
    assert_eq!(name_of(&s, id), Some(llanowar));
    assert_eq!(name_of(&s, id), name_of(&s, id2));
    assert_eq!(name_of(&s, 99_999), None, "absent object → None, no panic");
}

#[test]
fn distinct_card_types_in_graveyard_counts_categories_once() {
    let mut s = GameState::new(2, 0);
    let chars = |tl: TypeLine| Characteristics { types: tl, ..Default::default() };
    put(&mut s, Zone::Graveyard(0), 0, chars(TypeLine::CREATURE.into()));
    put(&mut s, Zone::Graveyard(0), 0, chars(TypeLine::CREATURE.into()));
    put(&mut s, Zone::Graveyard(0), 0, chars(TypeLine::INSTANT.into()));
    put(&mut s, Zone::Graveyard(0), 0, chars(TypeLine::LAND.into()));
    put(&mut s, Zone::Graveyard(0), 0, chars(TypeLine(TypeLine::ARTIFACT | TypeLine::CREATURE)));
    put(&mut s, Zone::Graveyard(1), 1, chars(TypeLine::SORCERY.into()));
    assert_eq!(distinct_card_types_in_graveyard(&s, 0), 4, "creature + instant + land + artifact");
    assert_eq!(distinct_card_types_in_graveyard(&s, 1), 1);
    assert_eq!(distinct_card_types_in_graveyard(&s, 99), 0, "invalid → 0");
}

#[test]
fn distinct_mana_values_dedupes_across_matching_permanents() {
    let mut s = GameState::new(2, 0);
    let cre = |cost: &str| Characteristics {
        mana_cost: Some(ManaCost::parse(cost).unwrap()),
        types: TypeLine::CREATURE.into(),
        ..Default::default()
    };
    put(&mut s, Zone::Battlefield, 0, cre("{G}"));
    put(&mut s, Zone::Battlefield, 0, cre("{1}{G}"));
    put(&mut s, Zone::Battlefield, 0, cre("{2}{G}"));
    put(&mut s, Zone::Battlefield, 0, cre("{W}"));
    put(&mut s, Zone::Battlefield, 0, Characteristics { types: TypeLine::LAND.into(), ..Default::default() });
    assert_eq!(distinct_mana_values(&s, &ObjectFilter::creature(), 0), 3);
}

#[test]
fn creatures_died_controlled_by_is_per_controller() {
    let mut s = GameState::new(2, 0);
    let a = put(&mut s, Zone::Battlefield, 0, creature_chars(1, 1));
    let b = put(&mut s, Zone::Battlefield, 0, creature_chars(1, 1));
    let c = put(&mut s, Zone::Battlefield, 1, creature_chars(1, 1));
    for id in [a, b, c] {
        let obj = s.objects.get(id).unwrap().clone();
        s.lki.insert(id, obj);
    }
    s.turn_event_log_start = 0;
    s.emit(GameEvent::Dies { object_id: a });
    s.emit(GameEvent::Dies { object_id: b });
    s.emit(GameEvent::Dies { object_id: c });
    assert_eq!(creatures_died_this_turn_controlled_by(&s, 0), 2, "Fresh Meat-class: only creatures YOU controlled");
    assert_eq!(creatures_died_this_turn_controlled_by(&s, 1), 1);
    assert_eq!(creatures_died_this_turn(&s), 3);
    assert_eq!(creatures_died_this_turn_controlled_by(&s, 99), 0);
}

#[test]
fn graveyard_ids_matching_returns_the_matching_ids() {
    let mut s = GameState::new(2, 0);
    let cre = put(&mut s, Zone::Graveyard(0), 0, creature_chars(2, 2));
    put(&mut s, Zone::Graveyard(0), 0, Characteristics { types: TypeLine::INSTANT.into(), ..Default::default() });
    let ids = graveyard_ids_matching(&s, &ObjectFilter::creature(), 0, 0);
    assert_eq!(ids, vec![cre], "only the creature card's id");
    assert_eq!(ids.len() as u32, graveyard_matching(&s, &ObjectFilter::creature(), 0, 0));
    assert!(graveyard_ids_matching(&s, &ObjectFilter::creature(), 99, 0).is_empty());
}

#[test]
fn commodity_subtype_filter_matches_by_kind_marker() {
    let reg = CardRegistry::new();
    let mut s = GameState::new(2, 0);
    let art = || Characteristics { types: TypeLine::ARTIFACT.into(), ..Default::default() };
    let treasure = put(&mut s, Zone::Battlefield, 0, art());
    s.objects.get_mut(treasure).unwrap().commodity = Some(CommodityToken::Treasure);
    let clue = put(&mut s, Zone::Battlefield, 0, art());
    s.objects.get_mut(clue).unwrap().commodity = Some(CommodityToken::Clue);
    put(&mut s, Zone::Battlefield, 0, art());

    assert_eq!(count_matching(&s, &subtype_filter(&reg, "Treasure"), 0), 1);
    assert_eq!(count_matching(&s, &subtype_filter(&reg, "Clue"), 0), 1);
    assert_eq!(count_matching(&s, &subtype_filter(&reg, "Food"), 0), 0);
    assert_eq!(ids_matching(&s, &subtype_filter(&reg, "Treasure"), 0), vec![treasure]);

    assert_eq!(commodity_kind_by_name("Treasure"), Some(CommodityToken::Treasure));
    assert_eq!(commodity_kind_by_name("Map"), Some(CommodityToken::MapToken));
    assert!(commodity_kind_by_name("Goblin").is_none(), "ordinary subtypes fall through to interner lookup");
}

#[test]
fn domain_counts_each_basic_type_once() {
    let mut reg = CardRegistry::new();
    let mountain = reg.interner_mut().intern("Mountain");
    let forest = reg.interner_mut().intern("Forest");
    let mut s = GameState::new(2, 0);
    let land = |subs: &[u32]| {
        let mut st = SubtypeSet::new();
        for x in subs {
            st.insert(*x);
        }
        Characteristics { types: TypeLine::LAND.into(), subtypes: st, ..Default::default() }
    };
    put(&mut s, Zone::Battlefield, 0, land(&[mountain]));
    put(&mut s, Zone::Battlefield, 0, land(&[mountain]));
    put(&mut s, Zone::Battlefield, 0, land(&[mountain, forest]));
    put(&mut s, Zone::Battlefield, 1, land(&[forest]));
    assert_eq!(domain(&s, 0, &reg), 2);
    assert_eq!(domain(&s, 1, &reg), 1);
    assert_eq!(domain(&s, 7, &reg), 0);
}

#[test]
fn per_turn_event_queries_read_this_turn_only() {
    let mut s = GameState::new(2, 0);
    let a = put(&mut s, Zone::Battlefield, 0, creature_chars(2, 2));
    let b = put(&mut s, Zone::Battlefield, 1, creature_chars(3, 3));
    s.emit(GameEvent::CreatureAttacks { attacker: b, defender: 0 });
    s.emit(GameEvent::LifeLost { player: 0, amount: 9 });
    s.turn_event_log_start = s.event_log.len();
    s.emit(GameEvent::CreatureAttacks { attacker: a, defender: 1 });
    s.emit(GameEvent::LifeLost { player: 1, amount: 2 });
    s.emit(GameEvent::LifeLost { player: 1, amount: 3 });
    s.emit(GameEvent::LifeGained { player: 0, amount: 4 });
    s.emit(GameEvent::EntersBattlefield { object_id: a, controller: 0 });
    assert!(creature_attacked_this_turn(&s, a));
    assert!(!creature_attacked_this_turn(&s, b));
    assert!(player_attacked_this_turn(&s, 0));
    assert!(!player_attacked_this_turn(&s, 1));
    assert_eq!(life_lost_this_turn(&s, 1), 5);
    assert_eq!(life_lost_this_turn(&s, 0), 0);
    assert_eq!(life_gained_this_turn(&s, 0), 4);
    assert_eq!(life_gained_this_turn(&s, 5), 0);
    assert!(entered_battlefield_this_turn(&s, a));
    assert!(!entered_battlefield_this_turn(&s, b));
    assert_eq!(entered_this_turn_matching(&s, &ObjectFilter::creature(), 0), 1);
    assert_eq!(
        entered_this_turn_matching(&s, &ObjectFilter::creature().controlled_by(ControllerConstraint::Opponent), 0),
        0
    );
}

#[test]
fn spell_counts_this_turn_and_last_turn() {
    let mut s = GameState::new(3, 0);
    let inst = || Characteristics { types: TypeLine::INSTANT.into(), ..Default::default() };
    let x = put(&mut s, Zone::Stack, 0, inst());
    let y = put(&mut s, Zone::Stack, 1, inst());
    let z = put(&mut s, Zone::Stack, 1, creature_chars(1, 1));
    s.prev_turn_event_log_start = 0;
    s.emit(GameEvent::SpellCast { object_id: x, controller: 0 });
    s.emit(GameEvent::SpellCast { object_id: y, controller: 1 });
    s.emit(GameEvent::SpellCast { object_id: z, controller: 1 });
    s.turn_event_log_start = s.event_log.len();
    s.emit(GameEvent::SpellCast { object_id: y, controller: 1 });
    assert_eq!(spells_cast_last_turn_total(&s), 3);
    assert_eq!(max_spells_by_a_player_last_turn(&s), 2);
    let instants = ObjectFilter::new().with_types_any(TypeLine::INSTANT.into());
    assert_eq!(spells_cast_this_turn(&s, &instants, 0), 1);
    assert_eq!(spells_cast_this_turn_by(&s, &instants, 1), 1);
    assert_eq!(spells_cast_this_turn_by(&s, &instants, 0), 0);
}

#[test]
fn blockers_and_blocked_attackers_come_from_combat() {
    let mut s = GameState::new(2, 0);
    assert!(blockers_of(&s, 1).is_empty());
    s.combat = Some(CombatState {
        phase: Default::default(),
        attackers: vec![
            AttackerInfo { object_id: 1, defender: 1, blocked_by: vec![5, 6] },
            AttackerInfo { object_id: 2, defender: 1, blocked_by: vec![] },
        ],
        blockers: vec![
            BlockerInfo { object_id: 5, blocking: 1 },
            BlockerInfo { object_id: 6, blocking: 1 },
            BlockerInfo { object_id: 6, blocking: 2 },
        ],
    });
    assert_eq!(blockers_of(&s, 1), vec![5, 6]);
    assert!(blockers_of(&s, 2).is_empty());
    assert!(blockers_of(&s, 3).is_empty());
    assert_eq!(attackers_blocked_by(&s, 6), vec![1, 2]);
    assert!(attackers_blocked_by(&s, 9).is_empty());
}

#[test]
fn maxima_over_matching_permanents() {
    let mut s = GameState::new(2, 0);
    assert_eq!(max_cmc_of(&s, &ObjectFilter::creature(), 0), 0);
    assert_eq!(max_power_of(&s, &ObjectFilter::creature(), 0), 0);
    let mut a = creature_chars(2, 2);
    a.mana_cost = Some(ManaCost::parse("{3}{G}").unwrap());
    put(&mut s, Zone::Battlefield, 0, a);
    let mut b = creature_chars(5, 1);
    b.mana_cost = Some(ManaCost::parse("{G}").unwrap());
    put(&mut s, Zone::Battlefield, 0, b);
    assert_eq!(max_cmc_of(&s, &ObjectFilter::creature(), 0), 4);
    assert_eq!(max_power_of(&s, &ObjectFilter::creature(), 0), 5);
}
