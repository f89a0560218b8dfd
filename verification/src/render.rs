//! One-line descriptions of notable game events for a play log, told from
//! one player's point of view ("You gain 3 life", "Opponent loses 2
//! life", "Grizzly Bears dies").

use vstd::prelude::*;
use crate::legal_actions::{Action, AttackerDeclaration, BlockerDeclaration, ChoiceAction, ChoiceResponse};
use crate::events::{DamageTarget, GameEvent};
use crate::objects::ObjectId;
use crate::registry::CardRegistry;
use crate::state::GameState;
use crate::turn::Step;
use crate::zones::Zone;
use crate::objects::GameObject;
use crate::text::{decimal_chars, decimal_chars_usize, is_whitespace, push_chars, push_str, spec_decimal, spec_is_whitespace, str_chars};
use crate::types::{CounterKind, PlayerId, StringInterner};

verus! {

/// How the log names object `id`: its card name, or "a card" when the
/// object is gone, unnamed, or named like a placeholder.
pub open spec fn spec_log_name(state: GameState, names: StringInterner, id: ObjectId) -> Seq<char> {
    if state.objects@.contains_key(id) {
        let h = state.objects@[id].characteristics.name;
        if 1 <= h <= names.strings@.len() {
            let s = names.strings@[h - 1]@;
            if s == ""@ || s == "?"@ || s == "<hidden>"@ {
                "a card"@
            } else {
                s
            }
        } else {
            "a card"@
        }
    } else {
        "a card"@
    }
}

/// "You" for the point-of-view player, else "Opponent".
pub open spec fn spec_who(p: PlayerId, perspective: PlayerId) -> Seq<char> {
    if p == perspective {
        "You"@
    } else {
        "Opponent"@
    }
}

/// Subject and verb agreeing with it: "You gain" / "Opponent gains".
pub open spec fn spec_act(p: PlayerId, perspective: PlayerId, verb: Seq<char>) -> Seq<char> {
    if p == perspective {
        "You "@ + verb
    } else {
        "Opponent "@ + verb + "s"@
    }
}

/// Name of a counter kind in the log.
pub open spec fn spec_counter_label(k: CounterKind) -> Seq<char> {
    match k {
        CounterKind::PlusOnePlusOne => "+1/+1"@,
        CounterKind::MinusOneMinusOne => "-1/-1"@,
        CounterKind::Loyalty => "loyalty"@,
        CounterKind::Lore => "lore"@,
        CounterKind::Charge => "charge"@,
        CounterKind::Time => "time"@,
        CounterKind::Level => "level"@,
        CounterKind::Shield => "shield"@,
        CounterKind::Stun => "stun"@,
        CounterKind::Oil => "oil"@,
        CounterKind::Poison => "poison"@,
        CounterKind::Energy => "energy"@,
    }
}

/// The log line of `event` seen by `perspective`; `None` for events the
/// log leaves out (taps, zone changes, casts, ...).
pub open spec fn spec_describe_event(
    event: GameEvent,
    state: GameState,
    names: StringInterner,
    perspective: PlayerId,
) -> Option<Seq<char>> {
    match event {
        GameEvent::LifeGained { player, amount } => Some(
            spec_act(player, perspective, "gain"@) + " "@ + spec_decimal(amount as nat) + " life"@,
        ),
        GameEvent::LifeLost { player, amount } => Some(
            spec_act(player, perspective, "lose"@) + " "@ + spec_decimal(amount as nat) + " life"@,
        ),
        GameEvent::DamageDealt { source, target, amount, .. } => {
            let tgt = match target {
                DamageTarget::Object(id) => spec_log_name(state, names, id),
                DamageTarget::Player(p) => spec_who(p, perspective),
            };
            Some(spec_log_name(state, names, source) + " deals "@ + spec_decimal(amount as nat) + " to "@ + tgt)
        },
        GameEvent::DrawCard { player, .. } => Some(spec_act(player, perspective, "draw"@) + " a card"@),
        GameEvent::Discarded { player, object_id } => Some(
            spec_act(player, perspective, "discard"@) + " "@ + spec_log_name(state, names, object_id),
        ),
        GameEvent::Dies { object_id } => Some(spec_log_name(state, names, object_id) + " dies"@),
        GameEvent::CounterAdded { object_id, kind, count } => Some(
            spec_log_name(state, names, object_id) + " gets "@ + spec_decimal(count as nat) + " "@
                + spec_counter_label(kind) + " counter"@ + if count == 1 {
                ""@
            } else {
                "s"@
            },
        ),
        GameEvent::Milled { player, object_id } => Some(
            spec_act(player, perspective, "mill"@) + " "@ + spec_log_name(state, names, object_id),
        ),
        GameEvent::Sacrifice { player, object_id } => Some(
            spec_act(player, perspective, "sacrifice"@) + " "@ + spec_log_name(state, names, object_id),
        ),
        GameEvent::Exiled { object_id } => Some(spec_log_name(state, names, object_id) + " is exiled"@),
        GameEvent::TokenCreated { object_id, controller } => Some(
            spec_act(controller, perspective, "create"@) + " "@ + spec_log_name(state, names, object_id),
        ),
        GameEvent::DieRolled { player, sides, result } => Some(
            spec_act(player, perspective, "roll"@) + " a d"@ + spec_decimal(sides as nat) + " → "@ + spec_decimal(
                result as nat,
            ),
        ),
        _ => None,
    }
}

fn log_name(state: &GameState, registry: &CardRegistry, id: ObjectId) -> (r: String)
    requires
        state.objects.wf(),
    ensures
        r@ == spec_log_name(*state, registry.names(), id),
{
    match state.objects.get(id) {
        None => "a card".to_owned(),
        Some(o) => match registry.interner().resolve(o.characteristics.name) {
            None => "a card".to_owned(),
            Some(s) => {
                let t = s.as_str().to_owned();
                if t == "".to_owned() || t == "?".to_owned() || t == "<hidden>".to_owned() {
                    "a card".to_owned()
                } else {
                    t
                }
            },
        },
    }
}

fn push_act(out: &mut String, p: PlayerId, perspective: PlayerId, verb: &str)
    ensures
        final(out)@ == old(out)@ + spec_act(p, perspective, verb@),
{
    if p == perspective {
        push_str(out, "You ");
        push_str(out, verb);
        proof {
            assert(old(out)@ + "You "@ + verb@ =~= old(out)@ + ("You "@ + verb@));
        }
    } else {
        push_str(out, "Opponent ");
        push_str(out, verb);
        push_str(out, "s");
        proof {
            assert(old(out)@ + "Opponent "@ + verb@ + "s"@ =~= old(out)@ + ("Opponent "@ + verb@ + "s"@));
        }
    }
}

fn push_number(out: &mut String, n: u32)
    ensures
        final(out)@ == old(out)@ + spec_decimal(n as nat),
{
    let d = decimal_chars(n);
    push_chars(out, &d);
}

/// Distinct kinds of counters get distinct labels, so a described event
/// names the kind of counter it is about; each kind reads as its name
/// ("-1/-1", "+1/+1", "loyalty", ...).
pub proof fn law_counter_labels_are_distinct(k1: CounterKind, k2: CounterKind)
    ensures
        spec_counter_label(k1) == spec_counter_label(k2) <==> k1 == k2,
        spec_counter_label(CounterKind::MinusOneMinusOne) == "-1/-1"@,
        spec_counter_label(CounterKind::PlusOnePlusOne) == "+1/+1"@,
        spec_counter_label(CounterKind::Loyalty) == "loyalty"@,
        spec_counter_label(CounterKind::Lore) == "lore"@,
        spec_counter_label(CounterKind::Charge) == "charge"@,
        spec_counter_label(CounterKind::Time) == "time"@,
        spec_counter_label(CounterKind::Level) == "level"@,
        spec_counter_label(CounterKind::Shield) == "shield"@,
        spec_counter_label(CounterKind::Stun) == "stun"@,
        spec_counter_label(CounterKind::Oil) == "oil"@,
        spec_counter_label(CounterKind::Poison) == "poison"@,
        spec_counter_label(CounterKind::Energy) == "energy"@,
{
    reveal_strlit("+1/+1");
    reveal_strlit("-1/-1");
    reveal_strlit("loyalty");
    reveal_strlit("lore");
    reveal_strlit("charge");
    reveal_strlit("time");
    reveal_strlit("level");
    reveal_strlit("shield");
    reveal_strlit("stun");
    reveal_strlit("oil");
    reveal_strlit("poison");
    reveal_strlit("energy");
    let l1 = spec_counter_label(k1);
    let l2 = spec_counter_label(k2);
    if l1 == l2 {
        assert(l1.len() == l2.len());
        assert(l1[0] == l2[0]);
    }
}

fn counter_label(k: CounterKind) -> (s: &'static str)
    ensures
        s@ == spec_counter_label(k),
{
    match k {
        CounterKind::PlusOnePlusOne => "+1/+1",
        CounterKind::MinusOneMinusOne => "-1/-1",
        CounterKind::Loyalty => "loyalty",
        CounterKind::Lore => "lore",
        CounterKind::Charge => "charge",
        CounterKind::Time => "time",
        CounterKind::Level => "level",
        CounterKind::Shield => "shield",
        CounterKind::Stun => "stun",
        CounterKind::Oil => "oil",
        CounterKind::Poison => "poison",
        CounterKind::Energy => "energy",
    }
}

/// A one-line description of a notable event from `perspective`'s side
/// ("You gain 3 life", "Opponent loses 2 life", "Bolt deals 3 to
/// Grizzly Bears"); `None` for structural events the log skips.
pub fn describe_event(
    event: &GameEvent,
    state: &GameState,
    registry: &CardRegistry,
    perspective: PlayerId,
) -> (r: Option<String>)
    requires
        state.objects.wf(),
    ensures
        match r {
            Some(s) => spec_describe_event(*event, *state, registry.names(), perspective) == Some(s@),
            None => spec_describe_event(*event, *state, registry.names(), perspective) is None,
        },
{
    let mut out = String::new();
    let ghost e = *event;
    match event {
        GameEvent::LifeGained { player, amount } => {
            push_act(&mut out, *player, perspective, "gain");
            push_str(&mut out, " ");
            push_number(&mut out, *amount);
            push_str(&mut out, " life");
        },
        GameEvent::LifeLost { player, amount } => {
            push_act(&mut out, *player, perspective, "lose");
            push_str(&mut out, " ");
            push_number(&mut out, *amount);
            push_str(&mut out, " life");
        },
        GameEvent::DamageDealt { source, target, amount, .. } => {
            let src = log_name(state, registry, *source);
            push_str(&mut out, src.as_str());
            push_str(&mut out, " deals ");
            push_number(&mut out, *amount);
            push_str(&mut out, " to ");
            match target {
                DamageTarget::Object(id) => {
                    let t = log_name(state, registry, *id);
                    push_str(&mut out, t.as_str());
                },
                DamageTarget::Player(p) => {
                    if *p == perspective {
                        push_str(&mut out, "You");
                    } else {
                        push_str(&mut out, "Opponent");
                    }
                },
            }
        },
        GameEvent::DrawCard { player, .. } => {
            push_act(&mut out, *player, perspective, "draw");
            push_str(&mut out, " a card");
        },
        GameEvent::Discarded { player, object_id } => {
            push_act(&mut out, *player, perspective, "discard");
            push_str(&mut out, " ");
            let n = log_name(state, registry, *object_id);
            push_str(&mut out, n.as_str());
        },
        GameEvent::Dies { object_id } => {
            let n = log_name(state, registry, *object_id);
            push_str(&mut out, n.as_str());
            push_str(&mut out, " dies");
        },
        GameEvent::CounterAdded { object_id, kind, count } => {
            let n = log_name(state, registry, *object_id);
            push_str(&mut out, n.as_str());
            push_str(&mut out, " gets ");
            push_number(&mut out, *count);
            push_str(&mut out, " ");
            push_str(&mut out, counter_label(*kind));
            push_str(&mut out, " counter");
            if *count != 1 {
                push_str(&mut out, "s");
            } else {
                push_str(&mut out, "");
            }
        },
        GameEvent::Milled { player, object_id } => {
            push_act(&mut out, *player, perspective, "mill");
            push_str(&mut out, " ");
            let n = log_name(state, registry, *object_id);
            push_str(&mut out, n.as_str());
        },
        GameEvent::Sacrifice { player, object_id } => {
            push_act(&mut out, *player, perspective, "sacrifice");
            push_str(&mut out, " ");
            let n = log_name(state, registry, *object_id);
            push_str(&mut out, n.as_str());
        },
        GameEvent::Exiled { object_id } => {
            let n = log_name(state, registry, *object_id);
            push_str(&mut out, n.as_str());
            push_str(&mut out, " is exiled");
        },
        GameEvent::TokenCreated { object_id, controller } => {
            push_act(&mut out, *controller, perspective, "create");
            push_str(&mut out, " ");
            let n = log_name(state, registry, *object_id);
            push_str(&mut out, n.as_str());
        },
        GameEvent::DieRolled { player, sides, result } => {
            push_act(&mut out, *player, perspective, "roll");
            push_str(&mut out, " a d");
            push_number(&mut out, *sides);
            push_str(&mut out, " → ");
            push_number(&mut out, *result);
        },
        _ => {
            return None;
        },
    }
    proof {
        assert(spec_describe_event(e, *state, registry.names(), perspective) == Some(out@));
    }
    Some(out)
}

/// The card name of object `id`: "?" when it is gone, "<hidden>" when
/// its name is empty or not interned.
pub open spec fn spec_card_name(state: GameState, names: StringInterner, id: ObjectId) -> Seq<char> {
    if state.objects@.contains_key(id) {
        let h = state.objects@[id].characteristics.name;
        if 1 <= h <= names.strings@.len() && names.strings@[h - 1]@ != ""@ {
            names.strings@[h - 1]@
        } else {
            "<hidden>"@
        }
    } else {
        "?"@
    }
}

/// Decimal form of a signed number.
pub open spec fn spec_signed_decimal(v: int) -> Seq<char> {
    if v < 0 {
        "-"@ + spec_decimal((-v) as nat)
    } else {
        spec_decimal(v as nat)
    }
}

/// "Name P/T" for a creature (current power and toughness, 0 when
/// missing), just "Name" otherwise.
pub open spec fn spec_object_brief(state: GameState, names: StringInterner, id: ObjectId) -> Seq<char> {
    let name = spec_card_name(state, names, id);
    if state.objects@.contains_key(id) && state.objects@[id].characteristics.types.has_bits(crate::types::TypeLine::CREATURE) {
        let o = state.objects@[id];
        let p = match crate::layers::clamp_opt(crate::layers::spec_power_of(o, state.continuous_effects@)) {
            Some(v) => v as int,
            None => 0,
        };
        let t = match crate::layers::clamp_opt(crate::layers::spec_toughness_of(o, state.continuous_effects@)) {
            Some(v) => v as int,
            None => 0,
        };
        name + " "@ + spec_signed_decimal(p) + "/"@ + spec_signed_decimal(t)
    } else {
        name
    }
}

fn card_name(state: &GameState, registry: &CardRegistry, id: ObjectId) -> (r: String)
    requires
        state.objects.wf(),
    ensures
        r@ == spec_card_name(*state, registry.names(), id),
{
    match state.objects.get(id) {
        None => "?".to_owned(),
        Some(o) => match registry.interner().resolve(o.characteristics.name) {
            None => "<hidden>".to_owned(),
            Some(s) => {
                let t = s.as_str().to_owned();
                if t == "".to_owned() {
                    "<hidden>".to_owned()
                } else {
                    t
                }
            },
        },
    }
}

fn push_signed(out: &mut String, v: i32)
    ensures
        final(out)@ == old(out)@ + spec_signed_decimal(v as int),
{
    if v < 0 {
        push_str(out, "-");
        let m: u32 = if v == i32::MIN {
            2147483648u32
        } else {
            (-v) as u32
        };
        let d = decimal_chars(m);
        push_chars(out, &d);
        proof {
            assert(old(out)@ + "-"@ + spec_decimal(m as nat) =~= old(out)@ + ("-"@ + spec_decimal(m as nat)));
        }
    } else {
        let d = decimal_chars(v as u32);
        push_chars(out, &d);
    }
}

/// A brief label for object `id`: its card name, and for a creature its
/// current power and toughness ("Grizzly Bears 2/2").
pub fn render_object_brief(state: &GameState, registry: &CardRegistry, id: ObjectId) -> (s: String)
    requires
        state.objects.wf(),
    ensures
        s@ == spec_object_brief(*state, registry.names(), id),
{
    let mut s = card_name(state, registry, id);
    if let Some(o) = state.objects.get(id) {
        if o.characteristics.types.is_creature() {
            let p = match state.computed_power(id) {
                Some(v) => v,
                None => 0,
            };
            let t = match state.computed_toughness(id) {
                Some(v) => v,
                None => 0,
            };
            let ghost s0 = s@;
            push_str(&mut s, " ");
            push_signed(&mut s, p);
            push_str(&mut s, "/");
            push_signed(&mut s, t);
            proof {
                assert(s@ =~= s0 + " "@ + spec_signed_decimal(p as int) + "/"@ + spec_signed_decimal(t as int));
            }
        }
    }
    s
}

/// The card names of the attackers of `ds`, joined by ", ".
pub open spec fn spec_attacker_names(state: GameState, names: StringInterner, ds: Seq<AttackerDeclaration>) -> Seq<
    char,
>
    decreases ds.len(),
{
    if ds.len() == 0 {
        ""@
    } else if ds.len() == 1 {
        spec_card_name(state, names, ds[0].attacker)
    } else {
        spec_attacker_names(state, names, ds.drop_last()) + ", "@ + spec_card_name(state, names, ds.last().attacker)
    }
}

/// `ids` written as a list, "[7, 8]".
pub open spec fn spec_id_list(ids: Seq<ObjectId>) -> Seq<char> {
    "["@ + spec_id_items(ids) + "]"@
}

/// The ids of `ids` in decimal, joined by ", ".
pub open spec fn spec_id_items(ids: Seq<ObjectId>) -> Seq<char>
    decreases ids.len(),
{
    if ids.len() == 0 {
        ""@
    } else if ids.len() == 1 {
        spec_decimal(ids[0] as nat)
    } else {
        spec_id_items(ids.drop_last()) + ", "@ + spec_decimal(ids.last() as nat)
    }
}

/// One attacker with its blockers, "(5, [7, 8])".
pub open spec fn spec_ordering_entry(e: (ObjectId, Seq<ObjectId>)) -> Seq<char> {
    "("@ + spec_decimal(e.0 as nat) + ", "@ + spec_id_list(e.1) + ")"@
}

/// The entries of `os`, joined by ", ".
pub open spec fn spec_ordering_items(os: Seq<(ObjectId, Seq<ObjectId>)>) -> Seq<char>
    decreases os.len(),
{
    if os.len() == 0 {
        ""@
    } else if os.len() == 1 {
        spec_ordering_entry(os[0])
    } else {
        spec_ordering_items(os.drop_last()) + ", "@ + spec_ordering_entry(os.last())
    }
}

/// The menu label of `a`: "Attack with nothing", "Attack with " and the
/// attackers' names, "Keep this hand", "Mulligan (draw a new hand)",
/// "Choose " and the card or the seat ("P1"), "Bottom N card(s)".
pub open spec fn spec_render_action(a: Action, state: GameState, reg: CardRegistry) -> Seq<char> {
    let names = reg.names();
    match a {
        Action::DeclareAttackers { attackers } => if attackers@.len() == 0 {
            "Attack with nothing"@
        } else {
            "Attack with "@ + spec_attacker_names(state, names, attackers@)
        },
        Action::MulliganKeep => "Keep this hand"@,
        Action::MulliganAgain => "Mulligan (draw a new hand)"@,
        Action::MakeChoice(ChoiceAction::ChooseObject(id)) => "Choose "@ + spec_card_name(state, names, id),
        Action::MakeChoice(ChoiceAction::ChoosePlayer(p)) => "Choose P"@ + spec_decimal(p as nat),
        Action::BottomCards(ids) => "Bottom "@ + spec_decimal(ids@.len()) + " card(s)"@,
        Action::OrderBlockers { orderings } => "OrderBlockers { orderings: ["@ + spec_ordering_items(
            crate::legal_actions::ordering_view(orderings@),
        ) + "] }"@,
        Action::PassPriority => "Pass"@,
        Action::Concede => "Concede"@,
        Action::PlayLand { object_id } => "Play "@ + spec_card_name(state, names, object_id),
        Action::CastSpell { object_id, x_value, .. } => "Cast "@ + spec_card_name(state, names, object_id) + match x_value {
            Some(x) => " (X="@ + spec_decimal(x as nat) + ")"@,
            None => ""@,
        },
        Action::DeclareBlockers { blockers } => if blockers@.len() == 0 {
            "Block with nothing"@
        } else {
            "Block: "@ + spec_block_pairs(state, names, blockers@)
        },
        Action::SubmitResolutionChoice { response } => match response {
            ChoiceResponse::PayOrDecline { pay } => if pay {
                "Pay"@
            } else {
                "Decline"@
            },
            ChoiceResponse::YesNo { answer } => if answer {
                "Yes"@
            } else {
                "No"@
            },
            ChoiceResponse::PickCards { picked } => if picked@.len() == 0 {
                "Pick nothing"@
            } else {
                "Pick "@ + spec_card_names(state, names, picked@)
            },
        },
        Action::ActivateAbility { source, ability_index, .. } => spec_activation_label(state, reg, source, ability_index),
    }
}

/// The card names of `ids`, joined by ", ".
pub open spec fn spec_card_names(state: GameState, names: StringInterner, ids: Seq<ObjectId>) -> Seq<char>
    decreases ids.len(),
{
    if ids.len() == 0 {
        ""@
    } else if ids.len() == 1 {
        spec_card_name(state, names, ids[0])
    } else {
        spec_card_names(state, names, ids.drop_last()) + ", "@ + spec_card_name(state, names, ids.last())
    }
}

/// One block, "Grizzly Bears blocks Serra Angel".
pub open spec fn spec_block_pair(state: GameState, names: StringInterner, b: BlockerDeclaration) -> Seq<char> {
    spec_card_name(state, names, b.blocker) + " blocks "@ + spec_card_name(state, names, b.blocking)
}

/// The blocks of `bs`, joined by "; ".
pub open spec fn spec_block_pairs(state: GameState, names: StringInterner, bs: Seq<BlockerDeclaration>) -> Seq<char>
    decreases bs.len(),
{
    if bs.len() == 0 {
        ""@
    } else if bs.len() == 1 {
        spec_block_pair(state, names, bs[0])
    } else {
        spec_block_pairs(state, names, bs.drop_last()) + "; "@ + spec_block_pair(state, names, bs.last())
    }
}

/// Append the card names of `ids`, joined by ", ".
fn push_card_names(out: &mut String, state: &GameState, registry: &CardRegistry, ids: &Vec<ObjectId>)
    requires
        state.objects.wf(),
    ensures
        final(out)@ == old(out)@ + spec_card_names(*state, registry.names(), ids@),
{
    let ghost start = out@;
    let mut i: usize = 0;
    proof {
        reveal_strlit("");
        assert(ids@.take(0) =~= Seq::<ObjectId>::empty());
        assert(out@ =~= start + spec_card_names(*state, registry.names(), ids@.take(0)));
    }
    while i < ids.len()
        invariant
            i <= ids@.len(),
            state.objects.wf(),
            out@ == start + spec_card_names(*state, registry.names(), ids@.take(i as int)),
        decreases ids@.len() - i,
    {
        proof {
            assert(ids@.take(i + 1).drop_last() =~= ids@.take(i as int));
        }
        if i > 0 {
            push_str(out, ", ");
        }
        let n = card_name(state, registry, ids[i]);
        push_str(out, n.as_str());
        proof {
            if i == 0 {
                reveal_strlit("");
                assert(ids@.take(1) =~= seq![ids@[0]]);
            }
            assert(out@ =~= start + spec_card_names(*state, registry.names(), ids@.take(i + 1)));
        }
        i = i + 1;
    }
    proof {
        assert(ids@.take(i as int) =~= ids@);
    }
}

/// Append the blocks of `bs`, joined by "; ".
fn push_block_pairs(out: &mut String, state: &GameState, registry: &CardRegistry, bs: &Vec<BlockerDeclaration>)
    requires
        state.objects.wf(),
    ensures
        final(out)@ == old(out)@ + spec_block_pairs(*state, registry.names(), bs@),
{
    let ghost start = out@;
    let mut i: usize = 0;
    proof {
        reveal_strlit("");
        assert(bs@.take(0) =~= Seq::<BlockerDeclaration>::empty());
        assert(out@ =~= start + spec_block_pairs(*state, registry.names(), bs@.take(0)));
    }
    while i < bs.len()
        invariant
            i <= bs@.len(),
            state.objects.wf(),
            out@ == start + spec_block_pairs(*state, registry.names(), bs@.take(i as int)),
        decreases bs@.len() - i,
    {
        proof {
            assert(bs@.take(i + 1).drop_last() =~= bs@.take(i as int));
        }
        if i > 0 {
            push_str(out, "; ");
        }
        let ghost mid = out@;
        let a = card_name(state, registry, bs[i].blocker);
        push_str(out, a.as_str());
        push_str(out, " blocks ");
        let b = card_name(state, registry, bs[i].blocking);
        push_str(out, b.as_str());
        proof {
            assert(out@ =~= mid + spec_block_pair(*state, registry.names(), bs@[i as int]));
            if i == 0 {
                reveal_strlit("");
                assert(bs@.take(1) =~= seq![bs@[0]]);
            }
            assert(out@ =~= start + spec_block_pairs(*state, registry.names(), bs@.take(i + 1)));
        }
        i = i + 1;
    }
    proof {
        assert(bs@.take(i as int) =~= bs@);
    }
}

/// Append the ids of `ids` in decimal, joined by ", ".
fn push_id_items(out: &mut String, ids: &Vec<ObjectId>)
    ensures
        final(out)@ == old(out)@ + spec_id_items(ids@),
{
    let ghost start = out@;
    let mut i: usize = 0;
    proof {
        reveal_strlit("");
        assert(ids@.take(0) =~= Seq::<ObjectId>::empty());
        assert(out@ =~= start + spec_id_items(ids@.take(0)));
    }
    while i < ids.len()
        invariant
            i <= ids@.len(),
            out@ == start + spec_id_items(ids@.take(i as int)),
        decreases ids@.len() - i,
    {
        proof {
            assert(ids@.take(i + 1).drop_last() =~= ids@.take(i as int));
        }
        if i > 0 {
            push_str(out, ", ");
        }
        push_number(out, ids[i]);
        proof {
            if i == 0 {
                reveal_strlit("");
                assert(ids@.take(1) =~= seq![ids@[0]]);
            }
            assert(out@ =~= start + spec_id_items(ids@.take(i + 1)));
        }
        i = i + 1;
    }
    proof {
        assert(ids@.take(i as int) =~= ids@);
    }
}

/// Append the entries of `os`, joined by ", ".
fn push_ordering_items(out: &mut String, os: &Vec<(ObjectId, Vec<ObjectId>)>)
    ensures
        final(out)@ == old(out)@ + spec_ordering_items(crate::legal_actions::ordering_view(os@)),
{
    let ghost start = out@;
    let ghost vs = crate::legal_actions::ordering_view(os@);
    let mut i: usize = 0;
    proof {
        reveal_strlit("");
        assert(vs.take(0) =~= Seq::<(ObjectId, Seq<ObjectId>)>::empty());
        assert(out@ =~= start + spec_ordering_items(vs.take(0)));
    }
    while i < os.len()
        invariant
            i <= os@.len(),
            vs == crate::legal_actions::ordering_view(os@),
            out@ == start + spec_ordering_items(vs.take(i as int)),
        decreases os@.len() - i,
    {
        proof {
            assert(vs.take(i + 1).drop_last() =~= vs.take(i as int));
        }
        let ghost before = out@;
        if i > 0 {
            push_str(out, ", ");
        }
        let ghost mid = out@;
        push_str(out, "(");
        push_number(out, os[i].0);
        push_str(out, ", [");
        push_id_items(out, &os[i].1);
        push_str(out, "])");
        proof {
            reveal_strlit(", [");
            reveal_strlit("])");
            reveal_strlit("[");
            reveal_strlit("]");
            reveal_strlit(")");
            reveal_strlit(", ");
            let e = vs[i as int];
            assert(e == crate::legal_actions::entry_view(os@[i as int]));
            assert(out@ =~= mid + spec_ordering_entry(e));
            if i == 0 {
                reveal_strlit("");
                assert(vs.take(1) =~= seq![vs[0]]);
            }
            assert(out@ =~= start + spec_ordering_items(vs.take(i + 1)));
        }
        i = i + 1;
    }
    proof {
        assert(vs.take(i as int) =~= vs);
    }
}

/// `s` without its leading whitespace.
pub open spec fn trim_start(s: Seq<char>) -> Seq<char>
    decreases s.len(),
{
    if s.len() > 0 && spec_is_whitespace(s[0]) {
        trim_start(s.drop_first())
    } else {
        s
    }
}

/// `s` without its trailing whitespace.
pub open spec fn trim_end(s: Seq<char>) -> Seq<char>
    decreases s.len(),
{
    if s.len() > 0 && spec_is_whitespace(s.last()) {
        trim_end(s.drop_last())
    } else {
        s
    }
}

/// Ability text as a label shows it: trimmed, and past 64 characters cut
/// to its first 63, trimmed again, with "…" after.
pub open spec fn shown_text(t: Seq<char>) -> Seq<char> {
    let u = trim_end(trim_start(t));
    if u.len() > 64 {
        trim_end(u.take(63)) + "…"@
    } else {
        u
    }
}

/// The rules text of the `i`-th activated ability of `id`'s card.
pub open spec fn spec_ability_text(state: GameState, reg: CardRegistry, id: ObjectId, i: usize) -> Option<Seq<char>> {
    if state.objects@.contains_key(id) {
        match reg.spec_get(state.objects@[id].card_id) {
            Some(d) => if i < d.activated_abilities@.len() {
                Some(d.activated_abilities@[i as int].text@)
            } else {
                None
            },
            None => None,
        }
    } else {
        None
    }
}

/// Label of an activation: the card's name, " — " and the ability's text,
/// or "Activate <name> [ability <i>]" when the text is empty or unknown.
pub open spec fn spec_activation_label(state: GameState, reg: CardRegistry, id: ObjectId, i: usize) -> Seq<char> {
    match spec_ability_text(state, reg, id, i) {
        Some(t) if trim_end(trim_start(t)).len() > 0 => spec_card_name(state, reg.names(), id) + " — "@ + shown_text(t),
        _ => "Activate "@ + spec_card_name(state, reg.names(), id) + " [ability "@ + spec_decimal(i as nat) + "]"@,
    }
}

/// `s.take(n)` is `s` without its trailing whitespace when everything
/// from `n` on is whitespace and the character before `n` is not.
pub proof fn lemma_trim_end_at(s: Seq<char>, n: int)
    requires
        0 <= n <= s.len(),
        forall|j: int| n <= j < s.len() ==> spec_is_whitespace(#[trigger] s[j]),
        n > 0 ==> !spec_is_whitespace(s[n - 1]),
    ensures
        trim_end(s) == s.take(n),
    decreases s.len(),
{
    if s.len() == n {
        assert(s.take(n) =~= s);
    } else {
        assert(spec_is_whitespace(s[s.len() - 1]));
        lemma_trim_end_at(s.drop_last(), n);
        assert(s.drop_last().take(n) =~= s.take(n));
    }
}

/// `s.skip(m)` is `s` without its leading whitespace when everything
/// before `m` is whitespace and the character at `m` is not.
pub proof fn lemma_trim_start_at(s: Seq<char>, m: int)
    requires
        0 <= m <= s.len(),
        forall|j: int| 0 <= j < m ==> spec_is_whitespace(#[trigger] s[j]),
        m < s.len() ==> !spec_is_whitespace(s[m]),
    ensures
        trim_start(s) == s.skip(m),
    decreases m,
{
    if m == 0 {
        assert(s.skip(0) =~= s);
    } else {
        assert(spec_is_whitespace(s[0]));
        assert forall|j: int| 0 <= j < m - 1 implies spec_is_whitespace(#[trigger] s.drop_first()[j]) by {
            assert(s.drop_first()[j] == s[j + 1]);
        }
        lemma_trim_start_at(s.drop_first(), m - 1);
        assert(s.drop_first().skip(m - 1) =~= s.skip(m));
    }
}

/// Where the trailing whitespace of `v[..upto]` begins.
fn trimmed_end_len(v: &Vec<char>, upto: usize) -> (n: usize)
    requires
        upto <= v@.len(),
    ensures
        n <= upto,
        forall|j: int| n <= j < upto ==> spec_is_whitespace(#[trigger] v@[j]),
        n > 0 ==> !spec_is_whitespace(v@[n - 1]),
{
    let mut n = upto;
    while n > 0 && is_whitespace(v[n - 1])
        invariant
            n <= upto <= v@.len(),
            forall|j: int| n <= j < upto ==> spec_is_whitespace(#[trigger] v@[j]),
        decreases n,
    {
        n = n - 1;
    }
    n
}

/// Number of leading whitespace characters of `v`.
fn leading_ws(v: &Vec<char>) -> (m: usize)
    ensures
        m <= v@.len(),
        forall|j: int| 0 <= j < m ==> spec_is_whitespace(#[trigger] v@[j]),
        m < v@.len() ==> !spec_is_whitespace(v@[m as int]),
{
    let mut m: usize = 0;
    while m < v.len() && is_whitespace(v[m])
        invariant
            m <= v@.len(),
            forall|j: int| 0 <= j < m ==> spec_is_whitespace(#[trigger] v@[j]),
        decreases v@.len() - m,
    {
        m = m + 1;
    }
    m
}

/// Append `v[from..to]` to `out`.
fn push_range(out: &mut String, v: &Vec<char>, from: usize, to: usize)
    requires
        from <= to <= v@.len(),
    ensures
        final(out)@ == old(out)@ + v@.subrange(from as int, to as int),
{
    let ghost start = out@;
    let mut i = from;
    while i < to
        invariant
            from <= i <= to <= v@.len(),
            out@ == start + v@.subrange(from as int, i as int),
        decreases to - i,
    {
        out.push(v[i]);
        proof {
            assert(v@.subrange(from as int, i + 1) =~= v@.subrange(from as int, i as int).push(v@[i as int]));
        }
        i = i + 1;
    }
}

/// Append the label of an activation of ability `i` of `source`.
fn push_activation_label(out: &mut String, state: &GameState, registry: &CardRegistry, source: ObjectId, i: usize)
    requires
        state.objects.wf(),
    ensures
        final(out)@ == old(out)@ + spec_activation_label(*state, *registry, source, i),
{
    let ghost start = out@;
    let n = card_name(state, registry, source);
    let text: Option<Vec<char>> = match state.objects.get(source) {
        None => None,
        Some(o) => match registry.get(o.card_id) {
            None => None,
            Some(d) => if i < d.activated_abilities.len() {
                Some(str_chars(d.activated_abilities[i].text.as_str()))
            } else {
                None
            },
        },
    };
    assert(text matches Some(v) ==> spec_ability_text(*state, *registry, source, i) == Some(v@));
    assert(text is None ==> spec_ability_text(*state, *registry, source, i) is None);
    match text {
        Some(v) => {
            let m = leading_ws(&v);
            let e = trimmed_end_len(&v, v.len());
            let ghost sv = v@;
            let ghost u = trim_end(trim_start(sv));
            proof {
                lemma_trim_start_at(sv, m as int);
                let w = sv.skip(m as int);
                let c: int = if e > m { e - m } else { 0 };
                assert forall|j: int| c <= j < w.len() implies spec_is_whitespace(#[trigger] w[j]) by {
                    assert(w[j] == sv[j + m]);
                }
                if c > 0 {
                    assert(w[c - 1] == sv[e - 1]);
                }
                lemma_trim_end_at(w, c);
                assert(u == w.take(c));
                if e > m {
                    assert(u =~= sv.subrange(m as int, e as int));
                } else {
                    assert(u.len() == 0);
                }
            }
            if e > m {
                push_str(out, n.as_str());
                push_str(out, " — ");
                let ghost mid = out@;
                if e - m > 64 {
                    let cut = trimmed_end_len(&v, m + 63);
                    proof {
                        let w = sv.subrange(m as int, m + 63);
                        assert(u.take(63) =~= w);
                        if cut <= m {
                            assert(spec_is_whitespace(sv[m as int]));
                        }
                        assert forall|j: int| cut - m <= j < w.len() implies spec_is_whitespace(#[trigger] w[j]) by {
                            assert(w[j] == sv[j + m]);
                        }
                        assert(w[cut - m - 1] == sv[cut - 1]);
                        lemma_trim_end_at(w, cut - m);
                        assert(w.take(cut - m) =~= sv.subrange(m as int, cut as int));
                    }
                    push_range(out, &v, m, cut);
                    push_str(out, "…");
                } else {
                    push_range(out, &v, m, e);
                }
                proof {
                    reveal_strlit(" — ");
                    reveal_strlit("…");
                    assert(out@ =~= start + spec_activation_label(*state, *registry, source, i));
                }
                return;
            }
        },
        None => {},
    }
    push_str(out, "Activate ");
    push_str(out, n.as_str());
    push_str(out, " [ability ");
    let d = decimal_chars_usize(i);
    push_chars(out, &d);
    push_str(out, "]");
    proof {
        reveal_strlit("Activate ");
        reveal_strlit(" [ability ");
        reveal_strlit("]");
        assert(out@ =~= start + spec_activation_label(*state, *registry, source, i));
    }
}

/// A short label for `action`, the menu text in human play, with object
/// ids resolved to card names.
pub fn render_action(action: &Action, state: &GameState, registry: &CardRegistry) -> (s: String)
    requires
        state.objects.wf(),
    ensures
        s@ == spec_render_action(*action, *state, *registry),
{
    match action {
        Action::DeclareAttackers { attackers } => {
            if attackers.len() == 0 {
                return "Attack with nothing".to_owned();
            }
            let ghost ds = attackers@;
            let mut out = "Attack with ".to_owned();
            proof {
                reveal_strlit("");
                assert(ds.take(0) =~= Seq::<AttackerDeclaration>::empty());
                assert(out@ =~= "Attack with "@ + spec_attacker_names(*state, registry.names(), ds.take(0)));
            }
            let mut i: usize = 0;
            while i < attackers.len()
                invariant
                    ds == attackers@,
                    0 < ds.len(),
                    i <= ds.len(),
                    state.objects.wf(),
                    out@ == "Attack with "@ + spec_attacker_names(*state, registry.names(), ds.take(i as int)),
                decreases ds.len() - i,
            {
                let ghost before = out@;
                proof {
                    assert(ds.take(i + 1).drop_last() =~= ds.take(i as int));
                    assert(ds.take(i + 1).last() == ds[i as int]);
                }
                if i > 0 {
                    push_str(&mut out, ", ");
                }
                let n = card_name(state, registry, attackers[i].attacker);
                push_str(&mut out, n.as_str());
                proof {
                    if i == 0 {
                        reveal_strlit("");
                        assert(ds.take(1) =~= seq![ds[0]]);
                        assert(out@ =~= "Attack with "@ + spec_attacker_names(*state, registry.names(), ds.take(1)));
                    } else {
                        assert(out@ =~= "Attack with "@ + spec_attacker_names(*state, registry.names(), ds.take(i + 1)));
                    }
                }
                i = i + 1;
            }
            proof {
                assert(ds.take(i as int) =~= ds);
            }
            out
        },
        Action::MulliganKeep => "Keep this hand".to_owned(),
        Action::MulliganAgain => "Mulligan (draw a new hand)".to_owned(),
        Action::MakeChoice(ChoiceAction::ChooseObject(id)) => {
            let mut out = "Choose ".to_owned();
            let n = card_name(state, registry, *id);
            push_str(&mut out, n.as_str());
            out
        },
        Action::MakeChoice(ChoiceAction::ChoosePlayer(p)) => {
            let mut out = "Choose P".to_owned();
            push_number(&mut out, *p as u32);
            out
        },
        Action::BottomCards(ids) => {
            let mut out = "Bottom ".to_owned();
            let d = decimal_chars_usize(ids.len());
            push_chars(&mut out, &d);
            push_str(&mut out, " card(s)");
            out
        },
        Action::OrderBlockers { orderings } => {
            let mut out = "OrderBlockers { orderings: [".to_owned();
            push_ordering_items(&mut out, orderings);
            push_str(&mut out, "] }");
            out
        },
        Action::PassPriority => "Pass".to_owned(),
        Action::Concede => "Concede".to_owned(),
        Action::PlayLand { object_id } => {
            let mut out = "Play ".to_owned();
            let n = card_name(state, registry, *object_id);
            push_str(&mut out, n.as_str());
            out
        },
        Action::CastSpell { object_id, x_value, .. } => {
            let mut out = "Cast ".to_owned();
            let n = card_name(state, registry, *object_id);
            push_str(&mut out, n.as_str());
            let ghost mid = out@;
            match x_value {
                Some(x) => {
                    push_str(&mut out, " (X=");
                    push_number(&mut out, *x);
                    push_str(&mut out, ")");
                },
                None => {
                    proof {
                        reveal_strlit("");
                        assert(out@ =~= mid + ""@);
                    }
                },
            }
            out
        },
        Action::DeclareBlockers { blockers } => {
            if blockers.len() == 0 {
                "Block with nothing".to_owned()
            } else {
                let mut out = "Block: ".to_owned();
                push_block_pairs(&mut out, state, registry, blockers);
                out
            }
        },
        Action::SubmitResolutionChoice { response } => match response {
            ChoiceResponse::PayOrDecline { pay } => if *pay {
                "Pay".to_owned()
            } else {
                "Decline".to_owned()
            },
            ChoiceResponse::YesNo { answer } => if *answer {
                "Yes".to_owned()
            } else {
                "No".to_owned()
            },
            ChoiceResponse::PickCards { picked } => if picked.len() == 0 {
                "Pick nothing".to_owned()
            } else {
                let mut out = "Pick ".to_owned();
                push_card_names(&mut out, state, registry, picked);
                out
            },
        },
        Action::ActivateAbility { source, ability_index, .. } => {
            let mut out = String::new();
            push_activation_label(&mut out, state, registry, *source, *ability_index);
            proof {
                assert(out@ =~= spec_activation_label(*state, *registry, *source, *ability_index));
            }
            out
        },
    }
}

// =============================================================================
// The table
// =============================================================================

/// Number of objects of `objs` in `zone`.
pub open spec fn zone_size(objs: Seq<GameObject>, zone: Zone) -> nat
    decreases objs.len(),
{
    if objs.len() == 0 {
        0
    } else {
        zone_size(objs.drop_last(), zone) + if objs.last().zone == zone {
            1nat
        } else {
            0nat
        }
    }
}

/// `items` joined by `sep`.
pub open spec fn joined(items: Seq<Seq<char>>, sep: Seq<char>) -> Seq<char>
    decreases items.len(),
{
    if items.len() == 0 {
        ""@
    } else if items.len() == 1 {
        items[0]
    } else {
        joined(items.drop_last(), sep) + sep + items.last()
    }
}

/// The name of the step, as it is spelled in the code.
pub open spec fn spec_step_name(s: Step) -> Seq<char> {
    match s {
        Step::Untap => "Untap"@,
        Step::Upkeep => "Upkeep"@,
        Step::Draw => "Draw"@,
        Step::Main => "Main"@,
        Step::BeginCombat => "BeginCombat"@,
        Step::DeclareAttackers => "DeclareAttackers"@,
        Step::DeclareBlockers => "DeclareBlockers"@,
        Step::CombatDamage => "CombatDamage"@,
        Step::CombatDamageRegular => "CombatDamageRegular"@,
        Step::EndCombat => "EndCombat"@,
        Step::End => "End"@,
        Step::Cleanup => "Cleanup"@,
    }
}

fn step_name(s: Step) -> (r: &'static str)
    ensures
        r@ == spec_step_name(s),
{
    match s {
        Step::Untap => "Untap",
        Step::Upkeep => "Upkeep",
        Step::Draw => "Draw",
        Step::Main => "Main",
        Step::BeginCombat => "BeginCombat",
        Step::DeclareAttackers => "DeclareAttackers",
        Step::DeclareBlockers => "DeclareBlockers",
        Step::CombatDamage => "CombatDamage",
        Step::CombatDamageRegular => "CombatDamageRegular",
        Step::EndCombat => "EndCombat",
        Step::End => "End",
        Step::Cleanup => "Cleanup",
    }
}

/// A permanent on the board: its brief label, and " (T)" when tapped.
pub open spec fn spec_permanent(state: GameState, names: StringInterner, o: GameObject) -> Seq<char> {
    spec_object_brief(state, names, o.id) + if o.status.tapped {
        " (T)"@
    } else {
        ""@
    }
}

/// Labels of the permanents of `objs` that `p` controls, in order.
pub open spec fn board_items(state: GameState, names: StringInterner, objs: Seq<GameObject>, p: PlayerId) -> Seq<
    Seq<char>,
>
    decreases objs.len(),
{
    if objs.len() == 0 {
        Seq::empty()
    } else {
        let rest = board_items(state, names, objs.drop_last(), p);
        let o = objs.last();
        if o.zone == Zone::Battlefield && o.controller == p {
            rest.push(spec_permanent(state, names, o))
        } else {
            rest
        }
    }
}

/// Names of the objects of `objs` in `zone`, in order.
pub open spec fn zone_names(state: GameState, names: StringInterner, objs: Seq<GameObject>, zone: Zone) -> Seq<
    Seq<char>,
>
    decreases objs.len(),
{
    if objs.len() == 0 {
        Seq::empty()
    } else {
        let rest = zone_names(state, names, objs.drop_last(), zone);
        if objs.last().zone == zone {
            rest.push(spec_card_name(state, names, objs.last().id))
        } else {
            rest
        }
    }
}

/// "── Turn 3 — Main — active P0, priority P1 ──".
pub open spec fn spec_header(state: GameState) -> Seq<char> {
    "── Turn "@ + spec_decimal(state.turn_number as nat) + " — "@ + spec_step_name(state.step) + " — active P"@
        + spec_decimal(state.active_player as nat) + ", priority P"@ + spec_decimal(state.priority.player as nat)
        + " ──\n"@
}

/// "*P0: 20 life | hand 7 | lib 53 | gy 0", a star marking the active
/// player, " poison N" when there is poison.
pub open spec fn spec_player_line(state: GameState, p: int) -> Seq<char> {
    let ps = state.players@[p];
    let objs = state.objects.objs@;
    (if p == state.active_player {
        "*"@
    } else {
        " "@
    }) + "P"@ + spec_decimal(p as nat) + ": "@ + spec_signed_decimal(ps.life as int) + " life | hand "@ + spec_decimal(
        zone_size(objs, Zone::Hand(p as u8)),
    ) + " | lib "@ + spec_decimal(zone_size(objs, Zone::Library(p as u8))) + " | gy "@ + spec_decimal(
        zone_size(objs, Zone::Graveyard(p as u8)),
    ) + (if ps.poison_counters > 0 {
        " poison "@ + spec_decimal(ps.poison_counters as nat)
    } else {
        ""@
    }) + "\n"@
}

/// The permanents `p` controls, "Grizzly Bears 2/2 (T), Forest", or
/// "(empty)".
pub open spec fn spec_board_text(state: GameState, names: StringInterner, p: PlayerId) -> Seq<char> {
    let items = board_items(state, names, state.objects.objs@, p);
    if items.len() == 0 {
        "(empty)"@
    } else {
        joined(items, ", "@)
    }
}

/// "  P1 board: Grizzly Bears 2/2 (T), Forest" or "  P1 board: (empty)".
pub open spec fn spec_board_line(state: GameState, names: StringInterner, p: int) -> Seq<char> {
    "  P"@ + spec_decimal(p as nat) + " board: "@ + spec_board_text(state, names, p as u8) + "\n"@
}

/// The player lines of the first `n` seats.
pub open spec fn spec_player_lines(state: GameState, n: nat) -> Seq<char>
    decreases n,
{
    if n == 0 {
        ""@
    } else {
        spec_player_lines(state, (n - 1) as nat) + spec_player_line(state, n - 1)
    }
}

/// The board lines of the first `n` seats.
pub open spec fn spec_board_lines(state: GameState, names: StringInterner, n: nat) -> Seq<char>
    decreases n,
{
    if n == 0 {
        ""@
    } else {
        spec_board_lines(state, names, (n - 1) as nat) + spec_board_line(state, names, n - 1)
    }
}

/// "  Stack: Lightning Bolt" when something is on the stack.
pub open spec fn spec_stack_line(state: GameState, names: StringInterner) -> Seq<char> {
    let items = zone_names(state, names, state.objects.objs@, Zone::Stack);
    if items.len() == 0 {
        ""@
    } else {
        "  Stack: "@ + joined(items, ", "@) + "\n"@
    }
}

/// The table as [`render`] shows it: the header, a line per player, a
/// board line per player, then the stack.
pub open spec fn spec_render(state: GameState, names: StringInterner) -> Seq<char> {
    let n = state.players@.len();
    spec_header(state) + spec_player_lines(state, n) + spec_board_lines(state, names, n) + spec_stack_line(state, names)
}

/// Sizes of `p`'s hand, library and graveyard.
fn zone_sizes(state: &GameState, p: u8) -> (r: (usize, usize, usize))
    ensures
        r.0 == zone_size(state.objects.objs@, Zone::Hand(p)),
        r.1 == zone_size(state.objects.objs@, Zone::Library(p)),
        r.2 == zone_size(state.objects.objs@, Zone::Graveyard(p)),
{
    let ghost objs = state.objects.objs@;
    let mut h: usize = 0;
    let mut l: usize = 0;
    let mut g: usize = 0;
    let mut i: usize = 0;
    while i < state.objects.objs.len()
        invariant
            objs == state.objects.objs@,
            i <= objs.len(),
            h == zone_size(objs.take(i as int), Zone::Hand(p)),
            l == zone_size(objs.take(i as int), Zone::Library(p)),
            g == zone_size(objs.take(i as int), Zone::Graveyard(p)),
            h <= i,
            l <= i,
            g <= i,
        decreases objs.len() - i,
    {
        proof {
            assert(objs.take(i + 1).drop_last() =~= objs.take(i as int));
        }
        let z = state.objects.objs[i].zone;
        if z == Zone::Hand(p) {
            h = h + 1;
        } else if z == Zone::Library(p) {
            l = l + 1;
        } else if z == Zone::Graveyard(p) {
            g = g + 1;
        }
        i = i + 1;
    }
    proof {
        assert(objs.take(i as int) =~= objs);
    }
    (h, l, g)
}

/// Append the board items of `p`, joined by ", ", or "(empty)".
fn push_board(out: &mut String, state: &GameState, registry: &CardRegistry, p: u8)
    requires
        state.objects.wf(),
    ensures
        final(out)@ == old(out)@ + spec_board_text(*state, registry.names(), p),
{
    let ghost objs = state.objects.objs@;
    let ghost names = registry.names();
    let ghost start = out@;
    let mut any = false;
    let mut i: usize = 0;
    proof {
        reveal_strlit("");
        assert(objs.take(0) =~= Seq::<GameObject>::empty());
        assert(out@ =~= start + ""@);
    }
    while i < state.objects.objs.len()
        invariant
            state.objects.wf(),
            objs == state.objects.objs@,
            names == registry.names(),
            i <= objs.len(),
            any == (board_items(*state, names, objs.take(i as int), p).len() > 0),
            out@ == start + joined(board_items(*state, names, objs.take(i as int), p), ", "@),
        decreases objs.len() - i,
    {
        proof {
            assert(objs.take(i + 1).drop_last() =~= objs.take(i as int));
            assert(objs.take(i + 1).last() == objs[i as int]);
        }
        let o = &state.objects.objs[i];
        if o.zone == Zone::Battlefield && o.controller == p {
            let ghost before = out@;
            if any {
                push_str(out, ", ");
            }
            let b = render_object_brief(state, registry, o.id);
            push_str(out, b.as_str());
            if o.is_tapped() {
                push_str(out, " (T)");
            }
            proof {
                reveal_strlit(", ");
                reveal_strlit(" (T)");
                reveal_strlit("");
                let items = board_items(*state, names, objs.take(i + 1), p);
                let prev = board_items(*state, names, objs.take(i as int), p);
                assert(items == prev.push(spec_permanent(*state, names, objs[i as int])));
                assert(items.drop_last() =~= prev);
                if any {
                    assert(out@ =~= start + joined(items, ", "@));
                } else {
                    assert(prev.len() == 0);
                    assert(out@ =~= start + joined(items, ", "@));
                }
            }
            any = true;
        }
        i = i + 1;
    }
    proof {
        assert(objs.take(i as int) =~= objs);
    }
    if !any {
        push_str(out, "(empty)");
        proof {
            reveal_strlit("");
            assert(out@ =~= start + "(empty)"@);
        }
    }
}

/// Append the names of the objects in `zone`, joined by ", ".
fn push_zone_names(out: &mut String, state: &GameState, registry: &CardRegistry, zone: Zone) -> (any: bool)
    requires
        state.objects.wf(),
    ensures
        any == (zone_names(*state, registry.names(), state.objects.objs@, zone).len() > 0),
        final(out)@ == old(out)@ + joined(zone_names(*state, registry.names(), state.objects.objs@, zone), ", "@),
{
    let ghost objs = state.objects.objs@;
    let ghost names = registry.names();
    let ghost start = out@;
    let mut any = false;
    let mut i: usize = 0;
    proof {
        reveal_strlit("");
        assert(objs.take(0) =~= Seq::<GameObject>::empty());
        assert(out@ =~= start + ""@);
    }
    while i < state.objects.objs.len()
        invariant
            state.objects.wf(),
            objs == state.objects.objs@,
            names == registry.names(),
            i <= objs.len(),
            any == (zone_names(*state, names, objs.take(i as int), zone).len() > 0),
            out@ == start + joined(zone_names(*state, names, objs.take(i as int), zone), ", "@),
        decreases objs.len() - i,
    {
        proof {
            assert(objs.take(i + 1).drop_last() =~= objs.take(i as int));
            assert(objs.take(i + 1).last() == objs[i as int]);
        }
        let o = &state.objects.objs[i];
        if o.zone == zone {
            if any {
                push_str(out, ", ");
            }
            let n = card_name(state, registry, o.id);
            push_str(out, n.as_str());
            proof {
                reveal_strlit(", ");
                reveal_strlit("");
                let items = zone_names(*state, names, objs.take(i + 1), zone);
                let prev = zone_names(*state, names, objs.take(i as int), zone);
                assert(items.drop_last() =~= prev);
                assert(out@ =~= start + joined(items, ", "@));
            }
            any = true;
        }
        i = i + 1;
    }
    proof {
        assert(objs.take(i as int) =~= objs);
    }
    any
}

/// Append the line of seat `p`, as [`spec_player_line`] spells it.
fn push_player_line(out: &mut String, state: &GameState, p: usize)
    requires
        state.wf(),
        p < state.players@.len(),
    ensures
        final(out)@ == old(out)@ + spec_player_line(*state, p as int),
{
    let ghost start = out@;
    let ps = &state.players[p];
    if p as u8 == state.active_player {
        push_str(out, "*");
    } else {
        push_str(out, " ");
    }
    push_str(out, "P");
    push_number(out, p as u32);
    push_str(out, ": ");
    push_signed(out, ps.life);
    let (h, l, g) = zone_sizes(state, p as u8);
    push_str(out, " life | hand ");
    let d = decimal_chars_usize(h);
    push_chars(out, &d);
    push_str(out, " | lib ");
    let d = decimal_chars_usize(l);
    push_chars(out, &d);
    push_str(out, " | gy ");
    let d = decimal_chars_usize(g);
    push_chars(out, &d);
    let ghost mid = out@;
    if ps.poison_counters > 0 {
        push_str(out, " poison ");
        push_number(out, ps.poison_counters);
    } else {
        proof {
            reveal_strlit("");
            assert(out@ =~= mid + ""@);
        }
    }
    push_str(out, "\n");
    proof {
        reveal_strlit("*");
        reveal_strlit(" ");
        reveal_strlit("P");
        reveal_strlit(": ");
        reveal_strlit(" life | hand ");
        reveal_strlit(" | lib ");
        reveal_strlit(" | gy ");
        reveal_strlit(" poison ");
        reveal_strlit("\n");
        assert(p < 256);
        assert(p == (p as u8) as int);
        assert(out@ =~= start + spec_player_line(*state, p as int));
    }
}

/// A multi-line snapshot of the table, as [`spec_render`] spells it.
pub fn render(state: &GameState, registry: &CardRegistry) -> (s: String)
    requires
        state.wf(),
    ensures
        s@ == spec_render(*state, registry.names()),
{
    let ghost names = registry.names();
    let mut out = "── Turn ".to_owned();
    push_number(&mut out, state.turn_number);
    push_str(&mut out, " — ");
    push_str(&mut out, step_name(state.step));
    push_str(&mut out, " — active P");
    push_number(&mut out, state.active_player as u32);
    push_str(&mut out, ", priority P");
    push_number(&mut out, state.priority.player as u32);
    push_str(&mut out, " ──\n");
    proof {
        reveal_strlit("── Turn ");
        reveal_strlit(" — ");
        reveal_strlit(" — active P");
        reveal_strlit(", priority P");
        reveal_strlit(" ──\n");
        assert(out@ =~= spec_header(*state));
    }
    let ghost head = out@;
    let n = state.players.len();
    let mut p: usize = 0;
    proof {
        reveal_strlit("");
        assert(out@ =~= head + ""@);
    }
    while p < n
        invariant
            state.wf(),
            n == state.players@.len(),
            p <= n,
            out@ == head + spec_player_lines(*state, p as nat),
        decreases n - p,
    {
        let ghost before = out@;
        push_player_line(&mut out, state, p);
        proof {
            assert(spec_player_lines(*state, (p + 1) as nat) == spec_player_lines(*state, p as nat) + spec_player_line(
                *state,
                p as int,
            ));
            assert(out@ =~= head + spec_player_lines(*state, (p + 1) as nat));
        }
        p = p + 1;
    }
    let ghost mid = out@;
    let mut p: usize = 0;
    proof {
        reveal_strlit("");
        assert(out@ =~= mid + ""@);
    }
    while p < n
        invariant
            state.wf(),
            names == registry.names(),
            n == state.players@.len(),
            p <= n,
            out@ == mid + spec_board_lines(*state, names, p as nat),
        decreases n - p,
    {
        let ghost before = out@;
        push_str(&mut out, "  P");
        push_number(&mut out, p as u32);
        push_str(&mut out, " board: ");
        push_board(&mut out, state, registry, p as u8);
        push_str(&mut out, "\n");
        proof {
            reveal_strlit("  P");
            reveal_strlit(" board: ");
            reveal_strlit("\n");
            assert(p < 256);
            assert(p == (p as u8) as int);
            assert(out@ =~= before + spec_board_line(*state, names, p as int));
            assert(spec_board_lines(*state, names, (p + 1) as nat) == spec_board_lines(*state, names, p as nat)
                + spec_board_line(*state, names, p as int));
            assert(out@ =~= mid + spec_board_lines(*state, names, (p + 1) as nat));
        }
        p = p + 1;
    }
    let ghost tail = out@;
    let mut stack = "  Stack: ".to_owned();
    let any = push_zone_names(&mut stack, state, registry, Zone::Stack);
    if any {
        push_str(&mut stack, "\n");
        push_str(&mut out, stack.as_str());
    }
    proof {
        reveal_strlit("  Stack: ");
        reveal_strlit("\n");
        reveal_strlit("");
        assert(out@ =~= tail + spec_stack_line(*state, names));
        assert(out@ =~= spec_render(*state, names));
    }
    out
}

/// [`render`] and then "  P<n> hand: " with the names of `perspective`'s
/// hand, or "(empty)".
pub open spec fn spec_render_for(state: GameState, names: StringInterner, perspective: PlayerId) -> Seq<char> {
    let items = zone_names(state, names, state.objects.objs@, Zone::Hand(perspective));
    spec_render(state, names) + "  P"@ + spec_decimal(perspective as nat) + " hand: "@ + (if items.len() == 0 {
        "(empty)"@
    } else {
        joined(items, ", "@)
    }) + "\n"@
}

/// The table with the hand of `perspective` spelled out, as
/// [`spec_render_for`] says.
pub fn render_for(state: &GameState, registry: &CardRegistry, perspective: PlayerId) -> (s: String)
    requires
        state.wf(),
    ensures
        s@ == spec_render_for(*state, registry.names(), perspective),
{
    let mut out = render(state, registry);
    let ghost start = out@;
    push_str(&mut out, "  P");
    push_number(&mut out, perspective as u32);
    push_str(&mut out, " hand: ");
    let ghost mid = out@;
    let any = push_zone_names(&mut out, state, registry, Zone::Hand(perspective));
    if !any {
        push_str(&mut out, "(empty)");
        proof {
            reveal_strlit("");
            assert(out@ =~= mid + "(empty)"@);
        }
    }
    push_str(&mut out, "\n");
    proof {
        reveal_strlit("  P");
        reveal_strlit(" hand: ");
        reveal_strlit("\n");
        assert(out@ =~= spec_render_for(*state, registry.names(), perspective));
    }
    out
}

/// "P0 20 P1 17": each seat and its life, in seat order.
pub open spec fn spec_lives(state: GameState, n: nat) -> Seq<char>
    decreases n,
{
    if n == 0 {
        ""@
    } else {
        spec_lives(state, (n - 1) as nat) + (if n > 1 {
            " "@
        } else {
            ""@
        }) + "P"@ + spec_decimal((n - 1) as nat) + " "@ + spec_signed_decimal(state.players@[n - 1].life as int)
    }
}

/// "T3 Main [P0 20 P1 17]": the turn, the step and each player's life.
pub open spec fn spec_render_oneline(state: GameState) -> Seq<char> {
    "T"@ + spec_decimal(state.turn_number as nat) + " "@ + spec_step_name(state.step) + " ["@ + spec_lives(
        state,
        state.players@.len(),
    ) + "]"@
}

/// A one-line summary, as [`spec_render_oneline`] spells it.
pub fn render_oneline(state: &GameState) -> (s: String)
    requires
        state.wf(),
    ensures
        s@ == spec_render_oneline(*state),
{
    let mut out = "T".to_owned();
    push_number(&mut out, state.turn_number);
    push_str(&mut out, " ");
    push_str(&mut out, step_name(state.step));
    push_str(&mut out, " [");
    let ghost head = out@;
    let n = state.players.len();
    let mut p: usize = 0;
    proof {
        reveal_strlit("");
        assert(out@ =~= head + ""@);
    }
    while p < n
        invariant
            state.wf(),
            n == state.players@.len(),
            p <= n,
            out@ == head + spec_lives(*state, p as nat),
        decreases n - p,
    {
        let ghost before = out@;
        if p > 0 {
            push_str(&mut out, " ");
        }
        push_str(&mut out, "P");
        push_number(&mut out, p as u32);
        push_str(&mut out, " ");
        push_signed(&mut out, state.players[p].life);
        proof {
            reveal_strlit(" ");
            reveal_strlit("P");
            reveal_strlit("");
            assert(out@ =~= before + (if p > 0 {
                " "@
            } else {
                ""@
            }) + "P"@ + spec_decimal(p as nat) + " "@ + spec_signed_decimal(state.players@[p as int].life as int));
            assert(out@ =~= head + spec_lives(*state, (p + 1) as nat));
        }
        p = p + 1;
    }
    push_str(&mut out, "]");
    proof {
        reveal_strlit("T");
        reveal_strlit(" ");
        reveal_strlit(" [");
        reveal_strlit("]");
        assert(out@ =~= spec_render_oneline(*state));
    }
    out
}

} // verus!
