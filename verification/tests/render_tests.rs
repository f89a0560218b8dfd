use arcana_core::events::{DamageTarget, GameEvent};
use arcana_core::objects::{Characteristics, GameObject};
use arcana_core::registry::CardRegistry;
use arcana_core::layers::{ContinuousEffect, ContinuousEffectKind, Duration, Layer};
use arcana_core::legal_actions::{Action, AttackerDeclaration, ChoiceAction, DefendingEntity};
use arcana_core::render::{describe_event, render, render_action, render_for, render_object_brief, render_oneline};
use arcana_core::state::GameState;
use arcana_core::types::{CounterKind, PtValue, TypeLine};
use arcana_core::zones::Zone;

#[test]
fn describe_event_renders_outcomes_from_perspective() {
    let s = GameState::new(2, 0);
    let reg = CardRegistry::new();
    let d = |e: &GameEvent, p| describe_event(e, &s, &reg, p);
    assert_eq!(d(&GameEvent::LifeGained { player: 0, amount: 3 }, 0).as_deref(), Some("You gain 3 life"));
    assert_eq!(d(&GameEvent::LifeLost { player: 1, amount: 2 }, 0).as_deref(), Some("Opponent loses 2 life"));
    assert_eq!(d(&GameEvent::DrawCard { player: 0, object_id: 1 }, 0).as_deref(), Some("You draw a card"));
    assert_eq!(d(&GameEvent::LifeGained { player: 0, amount: 3 }, 1).as_deref(), Some("Opponent gains 3 life"));
    assert_eq!(d(&GameEvent::Tapped { object_id: 1 }, 0), None);
}

#[test]
fn describe_event_names_cards_and_counters() {
    let mut reg = CardRegistry::new();
    let bolt = reg.interner_mut().intern("Lightning Bolt");
    let bears = reg.interner_mut().intern("Grizzly Bears");
    let mut s = GameState::new(2, 0);
    let b = s.allocate_object_id();
    s.objects.insert(GameObject::new(b, 0, Zone::Stack, 1, Characteristics { name: bolt, ..Default::default() }));
    let g = s.allocate_object_id();
    s.objects.insert(GameObject::new(g, 1, Zone::Battlefield, 2, Characteristics { name: bears, ..Default::default() }));
    let d = |e: &GameEvent, p| describe_event(e, &s, &reg, p);
    assert_eq!(
        d(&GameEvent::DamageDealt { source: b, target: DamageTarget::Object(g), amount: 3, is_combat: false }, 0)
            .as_deref(),
        Some("Lightning Bolt deals 3 to Grizzly Bears")
    );
    assert_eq!(
        d(&GameEvent::DamageDealt { source: b, target: DamageTarget::Player(1), amount: 12, is_combat: false }, 1)
            .as_deref(),
        Some("Lightning Bolt deals 12 to You")
    );
    assert_eq!(d(&GameEvent::Dies { object_id: g }, 0).as_deref(), Some("Grizzly Bears dies"));
    assert_eq!(d(&GameEvent::Dies { object_id: 999 }, 0).as_deref(), Some("a card dies"));
    assert_eq!(
        d(&GameEvent::CounterAdded { object_id: g, kind: CounterKind::PlusOnePlusOne, count: 1 }, 0).as_deref(),
        Some("Grizzly Bears gets 1 +1/+1 counter")
    );
    assert_eq!(
        d(&GameEvent::CounterAdded { object_id: g, kind: CounterKind::Lore, count: 2 }, 0).as_deref(),
        Some("Grizzly Bears gets 2 lore counters")
    );
    assert_eq!(
        d(&GameEvent::Discarded { player: 1, object_id: g }, 0).as_deref(),
        Some("Opponent discards Grizzly Bears")
    );
}

#[test]
fn object_brief_shows_creature_power_and_toughness() {
    let mut reg = CardRegistry::new();
    let bears = reg.interner_mut().intern("Grizzly Bears");
    let forest = reg.interner_mut().intern("Forest");
    let mut s = GameState::new(2, 0);
    let g = s.allocate_object_id();
    s.objects.insert(GameObject::new(
        g,
        0,
        Zone::Battlefield,
        1,
        Characteristics {
            name: bears,
            types: TypeLine::CREATURE.into(),
            power: Some(PtValue::Fixed(2)),
            toughness: Some(PtValue::Fixed(2)),
            ..Default::default()
        },
    ));
    let f = s.allocate_object_id();
    s.objects.insert(GameObject::new(
        f,
        0,
        Zone::Battlefield,
        2,
        Characteristics { name: forest, types: TypeLine::LAND.into(), ..Default::default() },
    ));
    assert_eq!(render_object_brief(&s, &reg, g), "Grizzly Bears 2/2");
    assert_eq!(render_object_brief(&s, &reg, f), "Forest");
    assert_eq!(render_object_brief(&s, &reg, 77), "?");
    s.add_continuous_effect(ContinuousEffect {
        source: 0,
        layer: Layer::L7cPTModifying,
        timestamp: 1,
        duration: Duration::EndOfTurn,
        dependency: None,
        kind: ContinuousEffectKind::PumpTarget { target: g, power: -5, toughness: 1 },
    });
    assert_eq!(render_object_brief(&s, &reg, g), "Grizzly Bears -3/3");
}

#[test]
fn render_action_names_the_attackers() {
    let mut reg = CardRegistry::new();
    let bears = reg.interner_mut().intern("Grizzly Bears");
    let elves = reg.interner_mut().intern("Llanowar Elves");
    let mut s = GameState::new(2, 0);
    let a = s.allocate_object_id();
    s.objects.insert(GameObject::new(a, 0, Zone::Battlefield, 1, Characteristics { name: bears, ..Default::default() }));
    let b = s.allocate_object_id();
    s.objects.insert(GameObject::new(b, 0, Zone::Battlefield, 2, Characteristics { name: elves, ..Default::default() }));
    let none = Action::DeclareAttackers { attackers: Vec::new() };
    assert_eq!(render_action(&none, &s, &reg), "Attack with nothing");
    let both = Action::DeclareAttackers {
        attackers: vec![
            AttackerDeclaration { attacker: a, defending: DefendingEntity::Player(1) },
            AttackerDeclaration { attacker: b, defending: DefendingEntity::Player(1) },
        ],
    };
    assert_eq!(render_action(&both, &s, &reg), "Attack with Grizzly Bears, Llanowar Elves");
    let gone = Action::DeclareAttackers {
        attackers: vec![AttackerDeclaration { attacker: 999, defending: DefendingEntity::Player(1) }],
    };
    assert_eq!(render_action(&gone, &s, &reg), "Attack with ?");
}

#[test]
fn render_action_labels_special_actions() {
    let mut reg = CardRegistry::new();
    let bears = reg.interner_mut().intern("Grizzly Bears");
    let mut s = GameState::new(2, 0);
    let a = s.allocate_object_id();
    s.objects.insert(GameObject::new(a, 0, Zone::Hand(0), 1, Characteristics { name: bears, ..Default::default() }));
    assert_eq!(render_action(&Action::MulliganKeep, &s, &reg), "Keep this hand");
    assert_eq!(render_action(&Action::MulliganAgain, &s, &reg), "Mulligan (draw a new hand)");
    assert_eq!(render_action(&Action::MakeChoice(ChoiceAction::ChooseObject(a)), &s, &reg), "Choose Grizzly Bears");
    assert_eq!(render_action(&Action::MakeChoice(ChoiceAction::ChoosePlayer(1)), &s, &reg), "Choose P1");
    assert_eq!(render_action(&Action::BottomCards(vec![a, 7, 9]), &s, &reg), "Bottom 3 card(s)");
}

#[test]
fn render_action_spells_out_blocker_orderings() {
    let reg = CardRegistry::new();
    let s = GameState::new(2, 0);
    let a = Action::OrderBlockers { orderings: vec![(5, vec![7, 8]), (12, vec![30, 31, 32])] };
    assert_eq!(render_action(&a, &s, &reg), "OrderBlockers { orderings: [(5, [7, 8]), (12, [30, 31, 32])] }");
    assert_eq!(render_action(&a, &s, &reg), format!("{a:?}"));
    let empty = Action::OrderBlockers { orderings: Vec::new() };
    assert_eq!(render_action(&empty, &s, &reg), format!("{empty:?}"));
}

fn named(reg: &mut CardRegistry, s: &mut GameState, owner: u8, zone: Zone, name: &str, creature: bool) -> u32 {
    let h = reg.interner_mut().intern(name);
    let id = s.allocate_object_id();
    let mut chars = Characteristics { name: h, ..Default::default() };
    if creature {
        chars.types = TypeLine::CREATURE.into();
        chars.power = Some(PtValue::Fixed(2));
        chars.toughness = Some(PtValue::Fixed(2));
    }
    let mut o = GameObject::new(id, owner, zone, 1, chars);
    o.controller = owner;
    s.objects.insert(o);
    id
}

#[test]
fn render_shows_header_players_boards_and_stack() {
    let mut reg = CardRegistry::new();
    let mut s = GameState::new(2, 0);
    s.step = arcana_core::turn::Step::Main;
    s.priority.player = 1;
    s.players[1].life = 17;
    s.players[1].poison_counters = 2;
    named(&mut reg, &mut s, 0, Zone::Hand(0), "Forest", false);
    let bears = named(&mut reg, &mut s, 0, Zone::Battlefield, "Grizzly Bears", true);
    s.objects.get_mut(bears).unwrap().status.tapped = true;
    named(&mut reg, &mut s, 0, Zone::Battlefield, "Mountain", false);
    named(&mut reg, &mut s, 1, Zone::Stack, "Lightning Bolt", false);
    named(&mut reg, &mut s, 1, Zone::Graveyard(1), "Shock", false);
    assert_eq!(
        render(&s, &reg),
        "── Turn 1 — Main — active P0, priority P1 ──\n\
         *P0: 20 life | hand 1 | lib 0 | gy 0\n \
         P1: 17 life | hand 0 | lib 0 | gy 1 poison 2\n  \
         P0 board: Grizzly Bears 2/2 (T), Mountain\n  \
         P1 board: (empty)\n  \
         Stack: Lightning Bolt\n"
    );
    assert_eq!(render_oneline(&s), "T1 Main [P0 20 P1 17]");
    assert!(render_for(&s, &reg, 0).ends_with("  P0 hand: Forest\n"));
    assert!(render_for(&s, &reg, 1).ends_with("  P1 hand: (empty)\n"));
}

#[test]
fn render_of_a_new_game_has_no_stack_line() {
    let s = GameState::new(2, 0);
    let reg = CardRegistry::new();
    let out = render(&s, &reg);
    assert!(out.starts_with("── Turn 1 — Untap — active P0, priority P0 ──\n"));
    assert!(!out.contains("Stack"));
    assert!(out.ends_with("  P1 board: (empty)\n"));
}

#[test]
fn describe_event_covers_mill_sacrifice_exile_tokens_and_dice() {
    let mut reg = CardRegistry::new();
    let bears = reg.interner_mut().intern("Grizzly Bears");
    let mut s = GameState::new(2, 0);
    let g = s.allocate_object_id();
    s.objects.insert(GameObject::new(g, 1, Zone::Battlefield, 2, Characteristics { name: bears, ..Default::default() }));
    let d = |e: &GameEvent, p| describe_event(e, &s, &reg, p);
    assert_eq!(d(&GameEvent::Milled { player: 0, object_id: g }, 0).as_deref(), Some("You mill Grizzly Bears"));
    assert_eq!(d(&GameEvent::Sacrifice { player: 1, object_id: g }, 0).as_deref(), Some("Opponent sacrifices Grizzly Bears"));
    assert_eq!(d(&GameEvent::Exiled { object_id: 77 }, 0).as_deref(), Some("a card is exiled"));
    assert_eq!(d(&GameEvent::TokenCreated { object_id: g, controller: 1 }, 1).as_deref(), Some("You create Grizzly Bears"));
    assert_eq!(d(&GameEvent::DieRolled { player: 0, sides: 20, result: 17 }, 1).as_deref(), Some("Opponent rolls a d20 → 17"));
}
