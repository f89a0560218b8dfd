//! State-based actions (CR 704).
//!
//! State-based actions are checked whenever a player would receive
//! priority; all that apply are performed, and the check repeats until a
//! pass performs nothing (CR 704.3). Implemented:
//!
//! * 704.5a/b/c: life 0 or less, drawing from an empty library, ten poison
//!   counters: the player loses;
//! * 704.5f/g: toughness 0 or less, lethal (or deathtouch) damage: the
//!   creature goes to its owner's graveyard (indestructible only protects
//!   from damage);
//! * 704.5i: a planeswalker without loyalty goes to the graveyard;
//! * 704.5j: the legend rule asks the controller which copy to keep;
//! * 704.5p: +1/+1 and -1/-1 counters annihilate in pairs;
//! * 704.5d: a token outside the battlefield ceases to exist;
//! * 704.5q/r: Equipment or a Fortification attached illegally becomes
//!   unattached;
//! * 704.5n: an Aura attached illegally, or not at all, goes to the
//!   graveyard.
//!
//! After the loop settles the game ends when one player (a win) or none
//! (a draw) is left.

use vstd::prelude::*;
use crate::counting::{
    count_where, lemma_count_insert, lemma_count_pointwise, lemma_count_remove, lemma_count_update,
};
use crate::events::{GameEvent, LoseReason, MoveCause};
use crate::layers::{clamp_opt, spec_has_keyword, spec_toughness_of};
use crate::objects::{GameObject, ObjectId, ids_sorted};
use crate::replacement::{
    DieOutcome, ReplacementEffect, ReplacementKind, die_pick, view_of,
};
use crate::state::{
    ChoiceContext, ChoiceKind, GameResult, GameState, PendingChoice, PlayerState, detached, leave_events, left_zone,
    moved_object,
};
use crate::types::{CounterKind, KeywordAbility, PlayerId, TypeLine};
use crate::zones::{Zone, ZoneKind, spec_zone_kind};

verus! {

// =============================================================================
// What is pending
// =============================================================================

/// Player `pl` meets a losing condition and has not lost yet.
pub open spec fn should_lose(pl: PlayerState) -> bool {
    !pl.has_lost && (pl.life <= 0 || pl.has_drawn_from_empty_library || pl.poison_counters >= 10)
}

pub open spec fn spec_pending_player_loss(s: GameState) -> bool {
    exists|p: int| 0 <= p < s.players@.len() && should_lose(#[trigger] s.players@[p])
}

pub open spec fn on_bf(o: GameObject) -> bool {
    o.zone == Zone::Battlefield
}

/// A battlefield creature that CR 704.5f/g (or 702.2b) puts into the
/// graveyard under continuous effects `ce`.
pub open spec fn creature_should_die(o: GameObject, ce: Seq<crate::layers::ContinuousEffect>) -> bool {
    &&& on_bf(o)
    &&& o.characteristics.types.has_bits(TypeLine::CREATURE)
    &&& clamp_opt(spec_toughness_of(o, ce)) matches Some(t) && {
        let ind = spec_has_keyword(o, ce, KeywordAbility::Indestructible);
        ||| t <= 0
        ||| !ind && o.damage_marked >= t
        ||| !ind && o.damage_marked > 0 && o.has_deathtouch_damage
    }
}

pub open spec fn spec_pending_creature_death(s: GameState) -> bool {
    exists|i: int|
        0 <= i < s.objects.objs@.len() && creature_should_die(#[trigger] s.objects.objs@[i], s.continuous_effects@)
}

/// A battlefield planeswalker with no loyalty counters (CR 704.5i).
pub open spec fn pw_should_die(o: GameObject) -> bool {
    on_bf(o) && o.characteristics.types.has_bits(TypeLine::PLANESWALKER) && o.counters.count(CounterKind::Loyalty) == 0
}

pub open spec fn spec_pending_pw_death(s: GameState) -> bool {
    exists|i: int| 0 <= i < s.objects.objs@.len() && pw_should_die(#[trigger] s.objects.objs@[i])
}

pub open spec fn legendary_on_bf(o: GameObject) -> bool {
    on_bf(o) && o.characteristics.supertypes.0 & 2 != 0
}

/// Two legendary permanents with the same name and controller (CR 704.5j).
pub open spec fn spec_pending_legend(s: GameState) -> bool {
    exists|i: int, j: int|
        0 <= i < j < s.objects.objs@.len() && legendary_on_bf(#[trigger] s.objects.objs@[i]) && legendary_on_bf(
            #[trigger] s.objects.objs@[j],
        ) && s.objects.objs@[i].controller == s.objects.objs@[j].controller
            && s.objects.objs@[i].characteristics.name == s.objects.objs@[j].characteristics.name
}

/// +1/+1 and -1/-1 counters together on a permanent (CR 704.5p).
pub open spec fn annihilatable(o: GameObject) -> bool {
    on_bf(o) && o.counters.count(CounterKind::PlusOnePlusOne) > 0 && o.counters.count(CounterKind::MinusOneMinusOne) > 0
}

pub open spec fn spec_pending_annihilation(s: GameState) -> bool {
    exists|i: int| 0 <= i < s.objects.objs@.len() && annihilatable(#[trigger] s.objects.objs@[i])
}

/// A token outside the battlefield (CR 704.5d).
pub open spec fn token_astray(o: GameObject) -> bool {
    o.is_token && o.zone != Zone::Battlefield
}

pub open spec fn spec_pending_token(s: GameState) -> bool {
    exists|i: int| 0 <= i < s.objects.objs@.len() && token_astray(#[trigger] s.objects.objs@[i])
}

/// Attached Equipment-style object: a non-enchantment artifact that is not
/// a Fortification.
pub open spec fn equipment_style(o: GameObject) -> bool {
    &&& o.characteristics.types.has_bits(TypeLine::ARTIFACT)
    &&& !o.characteristics.types.has_bits(TypeLine::ENCHANTMENT)
    &&& !o.characteristics.is_fortification
    &&& o.attached_to is Some
}

/// Object `t` is on the battlefield and has card type `bits`.
pub open spec fn legal_host(s: GameState, t: ObjectId, bits: u16) -> bool {
    s.objects@.contains_key(t) && on_bf(s.objects@[t]) && s.objects@[t].characteristics.types.has_bits(bits)
}

pub open spec fn equipment_illegal(s: GameState, o: GameObject) -> bool {
    equipment_style(o) && on_bf(o) && !legal_host(s, o.attached_to->0, TypeLine::CREATURE)
}

pub open spec fn spec_pending_equipment(s: GameState) -> bool {
    exists|i: int| 0 <= i < s.objects.objs@.len() && equipment_illegal(s, #[trigger] s.objects.objs@[i])
}

pub open spec fn fortification_illegal(s: GameState, o: GameObject) -> bool {
    o.characteristics.is_fortification && on_bf(o) && o.attached_to is Some && !legal_host(
        s,
        o.attached_to->0,
        TypeLine::LAND,
    )
}

pub open spec fn spec_pending_fortification(s: GameState) -> bool {
    exists|i: int| 0 <= i < s.objects.objs@.len() && fortification_illegal(s, #[trigger] s.objects.objs@[i])
}

/// An Aura on the battlefield attached to nothing, or to something not on
/// the battlefield (CR 704.5n).
pub open spec fn aura_illegal(s: GameState, o: GameObject) -> bool {
    &&& o.characteristics.is_aura
    &&& on_bf(o)
    &&& !(o.attached_to matches Some(t) && s.objects@.contains_key(t) && on_bf(s.objects@[t]))
}

pub open spec fn spec_pending_aura(s: GameState) -> bool {
    exists|i: int| 0 <= i < s.objects.objs@.len() && aura_illegal(s, #[trigger] s.objects.objs@[i])
}

/// Some state-based action applies.
pub open spec fn spec_has_pending(s: GameState) -> bool {
    ||| spec_pending_player_loss(s)
    ||| spec_pending_creature_death(s)
    ||| spec_pending_pw_death(s)
    ||| spec_pending_legend(s)
    ||| spec_pending_annihilation(s)
    ||| spec_pending_token(s)
    ||| spec_pending_equipment(s)
    ||| spec_pending_fortification(s)
    ||| spec_pending_aura(s)
}

// =============================================================================
// Progress measure
// =============================================================================

pub open spec fn bf_pred() -> spec_fn(GameObject) -> bool {
    |o: GameObject| o.zone == Zone::Battlefield
}

pub open spec fn tok_pred() -> spec_fn(GameObject) -> bool {
    |o: GameObject| o.is_token && o.zone != Zone::Battlefield
}

/// Attached Equipment or Fortification on the battlefield.
pub open spec fn att_pred() -> spec_fn(GameObject) -> bool {
    |o: GameObject|
        o.zone == Zone::Battlefield && o.attached_to is Some && (o.characteristics.is_fortification || (
        o.characteristics.types.has_bits(TypeLine::ARTIFACT) && !o.characteristics.types.has_bits(
            TypeLine::ENCHANTMENT,
        )))
}

pub open spec fn ann_pred() -> spec_fn(GameObject) -> bool {
    |o: GameObject|
        o.zone == Zone::Battlefield && o.counters.count(CounterKind::PlusOnePlusOne) > 0 && o.counters.count(
            CounterKind::MinusOneMinusOne,
        ) > 0
}

pub open spec fn alive_pred() -> spec_fn(PlayerState) -> bool {
    |p: PlayerState| !p.has_lost
}

/// Decreases with every state-based action performed: objects leaving the
/// battlefield count twice (they may leave a token behind), then tokens
/// outside the battlefield, attached Equipment and Fortifications,
/// annihilatable permanents, players still in the game and replacement
/// effects (a regeneration shield is used up).
pub open spec fn measure(s: GameState) -> nat {
    2 * count_where(s.objects.objs@, bf_pred()) + count_where(s.objects.objs@, tok_pred()) + count_where(
        s.objects.objs@,
        att_pred(),
    ) + count_where(s.objects.objs@, ann_pred()) + count_where(s.players@, alive_pred())
        + s.replacement_effects@.len()
}

/// Room to give every battlefield object a new id.
pub open spec fn id_room(s: GameState) -> bool {
    s.next_object_id + count_where(s.objects.objs@, bf_pred()) <= u32::MAX
}

/// The state the loop keeps.
pub open spec fn sba_inv(s: GameState) -> bool {
    s.wf() && id_room(s)
}

// =============================================================================
// Lemmas on the measure
// =============================================================================

/// Moving a battlefield object elsewhere lowers the measure and keeps the
/// id room.
pub proof fn lemma_move_off_bf(old: GameState, new: GameState, id: ObjectId, new_id: ObjectId, to: Zone, cause: MoveCause)
    requires
        old.wf(),
        old.objects@.contains_key(id),
        on_bf(old.objects@[id]),
        to != Zone::Battlefield,
        left_zone(old, new, id, new_id, to, cause),
        id_room(old),
    ensures
        measure(new) < measure(old),
        id_room(new),
        count_where(new.objects.objs@, bf_pred()) + 1 == count_where(old.objects.objs@, bf_pred()),
{
    let o = old.objects@[id];
    let i = old.objects.index_of(id);
    old.objects.lemma_index(id);
    let rest = old.objects.objs@.remove(i);
    let n = new.objects@[new_id];
    let (mid, pos) = choose|mid: Seq<GameObject>, pos: int|
        #![trigger mid.insert(pos, new.objects@[new_id])]
        mid.len() == rest.len() && 0 <= pos <= mid.len() && (forall|j: int|
            0 <= j < mid.len() ==> #[trigger] detached(rest[j], mid[j], id, o.attached_to))
            && new.objects.objs@ == mid.insert(pos, new.objects@[new_id]);
    assert(moved_object(o, n, new_id, to));
    // bf
    lemma_count_remove(old.objects.objs@, i, bf_pred());
    assert forall|j: int| 0 <= j < mid.len() && #[trigger] bf_pred()(rest[j]) implies bf_pred()(mid[j]) by {
        assert(detached(rest[j], mid[j], id, o.attached_to));
    }
    assert forall|j: int| 0 <= j < mid.len() && #[trigger] bf_pred()(mid[j]) implies bf_pred()(rest[j]) by {
        assert(detached(rest[j], mid[j], id, o.attached_to));
    }
    lemma_count_pointwise(rest, mid, bf_pred());
    lemma_count_pointwise(mid, rest, bf_pred());
    lemma_count_insert(mid, pos, n, bf_pred());
    // tokens
    lemma_count_remove(old.objects.objs@, i, tok_pred());
    assert forall|j: int| 0 <= j < mid.len() && #[trigger] tok_pred()(mid[j]) implies tok_pred()(rest[j]) by {
        assert(detached(rest[j], mid[j], id, o.attached_to));
    }
    lemma_count_pointwise(rest, mid, tok_pred());
    lemma_count_insert(mid, pos, n, tok_pred());
    // attached
    lemma_count_remove(old.objects.objs@, i, att_pred());
    assert forall|j: int| 0 <= j < mid.len() && #[trigger] att_pred()(mid[j]) implies att_pred()(rest[j]) by {
        assert(detached(rest[j], mid[j], id, o.attached_to));
    }
    lemma_count_pointwise(rest, mid, att_pred());
    lemma_count_insert(mid, pos, n, att_pred());
    // annihilatable
    lemma_count_remove(old.objects.objs@, i, ann_pred());
    assert forall|j: int| 0 <= j < mid.len() && #[trigger] ann_pred()(mid[j]) implies ann_pred()(rest[j]) by {
        assert(detached(rest[j], mid[j], id, o.attached_to));
    }
    lemma_count_pointwise(rest, mid, ann_pred());
    lemma_count_insert(mid, pos, n, ann_pred());
    // replacement effects only shrink
    assert(new.replacement_effects@.len() <= old.replacement_effects@.len()) by {
        if o.zone == Zone::Battlefield {
            old.replacement_effects@.lemma_filter_len(
                |e: ReplacementEffect|
                    !(e.source == id && e.duration == crate::replacement::ReplacementDuration::WhileSourceOnBattlefield),
            );
        }
    }
}

/// Changing one object in place, keeping its zone, token flag and
/// counters, leaves the counts other than the attached one alone; the
/// attached count does not grow unless the object gets attached.
pub proof fn lemma_update_in_place(old: GameState, new: GameState, i: int, n: GameObject)
    requires
        0 <= i < old.objects.objs@.len(),
        new.objects.objs@ == old.objects.objs@.update(i, n),
        n.zone == old.objects.objs@[i].zone,
        n.is_token == old.objects.objs@[i].is_token,
    ensures
        count_where(new.objects.objs@, bf_pred()) == count_where(old.objects.objs@, bf_pred()),
        count_where(new.objects.objs@, tok_pred()) == count_where(old.objects.objs@, tok_pred()),
        n.counters == old.objects.objs@[i].counters ==> count_where(new.objects.objs@, ann_pred()) == count_where(
            old.objects.objs@,
            ann_pred(),
        ),
        (att_pred()(n) ==> att_pred()(old.objects.objs@[i])) ==> count_where(new.objects.objs@, att_pred())
            <= count_where(old.objects.objs@, att_pred()),
        (att_pred()(old.objects.objs@[i]) && !att_pred()(n)) ==> count_where(new.objects.objs@, att_pred())
            < count_where(old.objects.objs@, att_pred()),
        (ann_pred()(old.objects.objs@[i]) && !ann_pred()(n)) ==> count_where(new.objects.objs@, ann_pred())
            < count_where(old.objects.objs@, ann_pred()),
        (ann_pred()(n) ==> ann_pred()(old.objects.objs@[i])) ==> count_where(new.objects.objs@, ann_pred())
            <= count_where(old.objects.objs@, ann_pred()),
{
    let s = old.objects.objs@;
    lemma_count_update(s, i, n, bf_pred());
    lemma_count_update(s, i, n, tok_pred());
    lemma_count_update(s, i, n, att_pred());
    lemma_count_update(s, i, n, ann_pred());
}


// =============================================================================
// What the actions keep
// =============================================================================

/// The log of `s` records object `k` leaving the battlefield for a
/// graveyard or exile by a state-based action.
pub open spec fn move_logged(s: GameState, k: ObjectId) -> bool {
    exists|i: int|
        0 <= i < s.event_log@.len() && (#[trigger] s.event_log@[i] matches GameEvent::ZoneChanged {
            object_id,
            from,
            to,
            cause,
            ..
        } && object_id == k && from == Zone::Battlefield && (to is Graveyard || to == Zone::Exile) && cause
            == MoveCause::StateBasedAction)
}

/// What state-based actions keep from `a` to `b`: the log only grows,
/// ids only come from fresh ones, and each battlefield object either stays
/// on the battlefield under its id or leaves by a logged move.
pub open spec fn sba_frame(a: GameState, b: GameState) -> bool {
    &&& a.event_log@.len() <= b.event_log@.len()
    &&& b.event_log@.take(a.event_log@.len() as int) == a.event_log@
    &&& a.next_object_id <= b.next_object_id
    &&& forall|k: ObjectId| #[trigger] b.objects@.contains_key(k) ==> a.objects@.contains_key(k) || k >= a.next_object_id
    &&& forall|k: ObjectId|
        #![trigger a.objects@.contains_key(k)]
        a.objects@.contains_key(k) && on_bf(a.objects@[k]) ==> if b.objects@.contains_key(k) {
            on_bf(b.objects@[k])
        } else {
            move_logged(b, k)
        }
}

/// Nothing changed that the frame looks at.
proof fn lemma_frame_same(a: GameState, b: GameState)
    requires
        a.objects == b.objects,
        a.event_log@.len() <= b.event_log@.len(),
        b.event_log@.take(a.event_log@.len() as int) == a.event_log@,
        a.next_object_id <= b.next_object_id,
    ensures
        sba_frame(a, b),
{
}

/// Frames compose.
proof fn lemma_frame_trans(a: GameState, b: GameState, c: GameState)
    requires
        a.wf(),
        sba_frame(a, b),
        sba_frame(b, c),
    ensures
        sba_frame(a, c),
{
    assert(c.event_log@.take(a.event_log@.len() as int) =~= a.event_log@) by {
        assert(c.event_log@.take(a.event_log@.len() as int) =~= c.event_log@.take(b.event_log@.len() as int).take(
            a.event_log@.len() as int,
        ));
    }
    assert forall|k: ObjectId| #[trigger] c.objects@.contains_key(k) implies a.objects@.contains_key(k) || k
        >= a.next_object_id by {
        if b.objects@.contains_key(k) {
        }
    }
    assert forall|k: ObjectId|
        #![trigger a.objects@.contains_key(k)]
        a.objects@.contains_key(k) && on_bf(a.objects@[k]) implies if c.objects@.contains_key(k) {
            on_bf(c.objects@[k])
        } else {
            move_logged(c, k)
        } by {
        if b.objects@.contains_key(k) {
            assert(b.objects@.contains_key(k) && on_bf(b.objects@[k]));
        } else {
            assert(move_logged(b, k));
            let i = choose|i: int|
                0 <= i < b.event_log@.len() && (#[trigger] b.event_log@[i] matches GameEvent::ZoneChanged {
                    object_id,
                    from,
                    to,
                    cause,
                    ..
                } && object_id == k && from == Zone::Battlefield && (to is Graveyard || to == Zone::Exile) && cause
                    == MoveCause::StateBasedAction);
            assert(c.event_log@[i] == c.event_log@.take(b.event_log@.len() as int)[i]);
            assert(c.event_log@[i] == b.event_log@[i]);
            assert(k < a.next_object_id);
            assert(!c.objects@.contains_key(k));
        }
    }
}

/// An object updated in place, keeping its id and zone.
proof fn lemma_frame_update(a: GameState, b: GameState, id: ObjectId, o: GameObject)
    requires
        a.objects.wf(),
        a.objects@.contains_key(id),
        o.id == id,
        o.zone == a.objects@[id].zone,
        b.objects@ == a.objects@.insert(id, o),
        a.event_log@.len() <= b.event_log@.len(),
        b.event_log@.take(a.event_log@.len() as int) == a.event_log@,
        a.next_object_id <= b.next_object_id,
    ensures
        sba_frame(a, b),
{
}

/// Objects changed in place, keeping their ids, positions and zones.
proof fn lemma_frame_in_place(a: GameState, b: GameState)
    requires
        a.objects.wf(),
        b.objects.ids@ == a.objects.ids@,
        b.objects.objs@.len() == a.objects.objs@.len(),
        forall|i: int| 0 <= i < a.objects.objs@.len() ==> (#[trigger] b.objects.objs@[i]).zone == a.objects.objs@[i].zone,
        a.event_log@.len() <= b.event_log@.len(),
        b.event_log@.take(a.event_log@.len() as int) == a.event_log@,
        a.next_object_id <= b.next_object_id,
    ensures
        sba_frame(a, b),
{
    assert forall|k: ObjectId|
        #![trigger a.objects@.contains_key(k)]
        a.objects@.contains_key(k) && on_bf(a.objects@[k]) implies if b.objects@.contains_key(k) {
            on_bf(b.objects@[k])
        } else {
            move_logged(b, k)
        } by {
        a.objects.lemma_index(k);
        assert(b.objects.index_of(k) == a.objects.index_of(k));
    }
}

/// Tokens outside the battlefield removed, every other object kept.
proof fn lemma_frame_tokens(a: GameState, b: GameState)
    requires
        forall|k: ObjectId|
            #[trigger] b.objects@.contains_key(k) <==> (a.objects@.contains_key(k) && !token_astray(a.objects@[k])),
        forall|k: ObjectId| #[trigger] b.objects@.contains_key(k) ==> b.objects@[k] == a.objects@[k],
        b.event_log == a.event_log,
        b.next_object_id == a.next_object_id,
    ensures
        sba_frame(a, b),
{
    assert(b.event_log@.take(a.event_log@.len() as int) =~= a.event_log@);
    assert forall|k: ObjectId|
        #![trigger a.objects@.contains_key(k)]
        a.objects@.contains_key(k) && on_bf(a.objects@[k]) implies if b.objects@.contains_key(k) {
            on_bf(b.objects@[k])
        } else {
            move_logged(b, k)
        } by {
        assert(b.objects@.contains_key(k));
    }
}

/// A battlefield object moved off the battlefield by a state-based action.
proof fn lemma_frame_left_zone(a: GameState, b: GameState, id: ObjectId, to: Zone)
    requires
        a.wf(),
        a.objects@.contains_key(id),
        on_bf(a.objects@[id]),
        to is Graveyard || to == Zone::Exile,
        left_zone(a, b, id, a.next_object_id, to, MoveCause::StateBasedAction),
    ensures
        sba_frame(a, b),
{
    let o = a.objects@[id];
    let idx = a.objects.index_of(id);
    a.objects.lemma_index(id);
    let rest = a.objects.objs@.remove(idx);
    let new_id = a.next_object_id;
    let n = b.objects@[new_id];
    let (mid, pos) = choose|mid: Seq<GameObject>, pos: int|
        #![trigger mid.insert(pos, b.objects@[new_id])]
        mid.len() == rest.len() && 0 <= pos <= mid.len() && (forall|j: int|
            0 <= j < mid.len() ==> #[trigger] detached(rest[j], mid[j], id, o.attached_to))
            && b.objects.objs@ == mid.insert(pos, b.objects@[new_id]);
    // The log.
    let zc = GameEvent::ZoneChanged { object_id: id, new_id, from: o.zone, to, cause: MoveCause::StateBasedAction };
    assert(leave_events(o, id, new_id, to, MoveCause::StateBasedAction)[0] == zc);
    assert(b.event_log@[a.event_log@.len() as int] == zc);
    assert(move_logged(b, id));
    assert(b.event_log@.take(a.event_log@.len() as int) =~= a.event_log@);
    // Positions of the new arena.
    assert forall|i: int| 0 <= i < b.objects.objs@.len() && i != pos implies {
        let j = if i < pos { i } else { i - 1 };
        let j0 = if j < idx { j } else { j + 1 };
        &&& 0 <= j < mid.len()
        &&& 0 <= j0 < a.objects.objs@.len()
        &&& j0 != idx
        &&& (#[trigger] b.objects.objs@[i]).id == a.objects.objs@[j0].id
        &&& b.objects.objs@[i].zone == a.objects.objs@[j0].zone
    } by {
        let j = if i < pos { i } else { i - 1 };
        assert(b.objects.objs@[i] == mid[j]);
        assert(detached(rest[j], mid[j], id, o.attached_to));
    }
    assert(b.objects.objs@[pos] == n);
    // Fresh ids only.
    assert forall|k: ObjectId| #[trigger] b.objects@.contains_key(k) implies a.objects@.contains_key(k) || k
        >= a.next_object_id by {
        let i = b.objects.index_of(k);
        b.objects.lemma_index(k);
        if i != pos {
            let j = if i < pos { i } else { i - 1 };
            let j0 = if j < idx { j } else { j + 1 };
            a.objects.lemma_at(j0);
        }
    }
    // Battlefield objects stay or leave by a logged move.
    assert forall|k: ObjectId|
        #![trigger a.objects@.contains_key(k)]
        a.objects@.contains_key(k) && on_bf(a.objects@[k]) implies if b.objects@.contains_key(k) {
            on_bf(b.objects@[k])
        } else {
            move_logged(b, k)
        } by {
        if k == id {
            if b.objects@.contains_key(k) {
                let i = b.objects.index_of(k);
                b.objects.lemma_index(k);
                if i == pos {
                    assert(n.id == new_id);
                } else {
                    let j = if i < pos { i } else { i - 1 };
                    let j0 = if j < idx { j } else { j + 1 };
                    a.objects.lemma_at(j0);
                    assert(a.objects.ids@[j0] == a.objects.ids@[idx]);
                }
                assert(false);
            }
        } else {
            let j0 = a.objects.index_of(k);
            a.objects.lemma_index(k);
            let j = if j0 < idx { j0 } else { j0 - 1 };
            let i = if j < pos { j } else { j + 1 };
            assert(0 <= j < mid.len());
            assert(b.objects.objs@[i] == mid[j]);
            assert(rest[j] == a.objects.objs@[j0]);
            assert(detached(rest[j], mid[j], id, o.attached_to));
            b.objects.lemma_at(i);
        }
    }
}

// =============================================================================
// Pending checks
// =============================================================================

/// Does a player meet a losing condition?
pub fn pending_player_loss(state: &GameState) -> (b: bool)
    ensures
        b == spec_pending_player_loss(*state),
{
    let mut p: usize = 0;
    while p < state.players.len()
        invariant
            p <= state.players@.len(),
            forall|q: int| 0 <= q < p ==> !should_lose(#[trigger] state.players@[q]),
        decreases state.players@.len() - p,
    {
        let pl = &state.players[p];
        if !pl.has_lost && (pl.life <= 0 || pl.has_drawn_from_empty_library || pl.poison_counters >= 10) {
            return true;
        }
        p = p + 1;
    }
    false
}

/// Would CR 704.5f/g (or deathtouch) put creature `o` into the graveyard?
fn creature_dies(state: &GameState, o: &GameObject) -> (b: bool)
    ensures
        b == creature_should_die(*o, state.continuous_effects@),
{
    if !o.zone.is_battlefield() || !o.is_creature() {
        return false;
    }
    match crate::layers::toughness_of(o, &state.continuous_effects) {
        Some(t) => {
            let ind = crate::layers::object_has_keyword(o, &state.continuous_effects, KeywordAbility::Indestructible);
            t <= 0 || (!ind && o.damage_marked as i64 >= t as i64) || (!ind && o.damage_marked > 0
                && o.has_deathtouch_damage)
        },
        None => false,
    }
}

/// Is a creature due to die?
pub fn pending_creature_to_graveyard(state: &GameState) -> (b: bool)
    ensures
        b == spec_pending_creature_death(*state),
{
    let objs = &state.objects.objs;
    let mut i: usize = 0;
    while i < objs.len()
        invariant
            objs == &state.objects.objs,
            i <= objs@.len(),
            forall|k: int| 0 <= k < i ==> !creature_should_die(#[trigger] objs@[k], state.continuous_effects@),
        decreases objs@.len() - i,
    {
        if creature_dies(state, &objs[i]) {
            return true;
        }
        i = i + 1;
    }
    false
}

/// Current loyalty of a planeswalker: its loyalty counters (CR 306.5b).
fn planeswalker_loyalty(o: &GameObject) -> (n: u32)
    ensures
        n == o.counters.count(CounterKind::Loyalty),
{
    o.count_counters(CounterKind::Loyalty)
}

/// Is a planeswalker without loyalty on the battlefield?
pub fn pending_planeswalker_to_graveyard(state: &GameState) -> (b: bool)
    ensures
        b == spec_pending_pw_death(*state),
{
    let objs = &state.objects.objs;
    let mut i: usize = 0;
    while i < objs.len()
        invariant
            objs == &state.objects.objs,
            i <= objs@.len(),
            forall|k: int| 0 <= k < i ==> !pw_should_die(#[trigger] objs@[k]),
        decreases objs@.len() - i,
    {
        let o = &objs[i];
        if o.zone.is_battlefield() && o.is_planeswalker() && planeswalker_loyalty(o) == 0 {
            return true;
        }
        i = i + 1;
    }
    false
}

/// Do two legendary permanents share a name and a controller?
pub fn pending_legend_conflict(state: &GameState) -> (b: bool)
    ensures
        b == spec_pending_legend(*state),
{
    let objs = &state.objects.objs;
    let mut i: usize = 0;
    while i < objs.len()
        invariant
            objs == &state.objects.objs,
            i <= objs@.len(),
            forall|a: int, c: int|
                0 <= a < c < objs@.len() && a < i ==> !(legendary_on_bf(#[trigger] objs@[a]) && legendary_on_bf(
                    #[trigger] objs@[c],
                ) && objs@[a].controller == objs@[c].controller && objs@[a].characteristics.name
                    == objs@[c].characteristics.name),
        decreases objs@.len() - i,
    {
        let a = &objs[i];
        if a.zone.is_battlefield() && a.characteristics.supertypes.is_legendary() {
            let mut j: usize = i + 1;
            while j < objs.len()
                invariant
                    objs == &state.objects.objs,
                    i < objs@.len(),
                    i + 1 <= j <= objs@.len(),
                    *a == objs@[i as int],
                    legendary_on_bf(objs@[i as int]),
                    forall|c: int|
                        i < c < j ==> !(legendary_on_bf(#[trigger] objs@[c]) && objs@[i as int].controller
                            == objs@[c].controller && objs@[i as int].characteristics.name
                            == objs@[c].characteristics.name),
                decreases objs@.len() - j,
            {
                let c = &objs[j];
                if c.zone.is_battlefield() && c.characteristics.supertypes.is_legendary() && c.controller
                    == a.controller && c.characteristics.name == a.characteristics.name {
                    return true;
                }
                j = j + 1;
            }
        }
        i = i + 1;
    }
    false
}

/// Does a permanent have both +1/+1 and -1/-1 counters?
pub fn pending_pt_annihilation(state: &GameState) -> (b: bool)
    ensures
        b == spec_pending_annihilation(*state),
{
    let objs = &state.objects.objs;
    let mut i: usize = 0;
    while i < objs.len()
        invariant
            objs == &state.objects.objs,
            i <= objs@.len(),
            forall|k: int| 0 <= k < i ==> !annihilatable(#[trigger] objs@[k]),
        decreases objs@.len() - i,
    {
        let o = &objs[i];
        if o.zone.is_battlefield() && o.has_counter(CounterKind::PlusOnePlusOne) && o.has_counter(
            CounterKind::MinusOneMinusOne,
        ) {
            return true;
        }
        i = i + 1;
    }
    false
}

/// Is a token outside the battlefield?
pub fn pending_token_cease(state: &GameState) -> (b: bool)
    ensures
        b == spec_pending_token(*state),
{
    let objs = &state.objects.objs;
    let mut i: usize = 0;
    while i < objs.len()
        invariant
            objs == &state.objects.objs,
            i <= objs@.len(),
            forall|k: int| 0 <= k < i ==> !token_astray(#[trigger] objs@[k]),
        decreases objs@.len() - i,
    {
        let o = &objs[i];
        if o.is_token && !o.zone.is_battlefield() {
            return true;
        }
        i = i + 1;
    }
    false
}

/// Is object `t` on the battlefield with card type `bits`?
fn is_legal_host(state: &GameState, t: ObjectId, bits: u16) -> (b: bool)
    requires
        state.objects.wf(),
    ensures
        b == legal_host(*state, t, bits),
{
    match state.objects.get(t) {
        Some(h) => h.zone.is_battlefield() && h.characteristics.types.0 & bits != 0,
        None => false,
    }
}

fn is_equipment_style(o: &GameObject) -> (b: bool)
    ensures
        b == equipment_style(*o),
{
    o.characteristics.types.is_artifact() && !o.characteristics.types.is_enchantment()
        && !o.characteristics.is_fortification && o.attached_to.is_some()
}

fn equipment_is_illegal(state: &GameState, o: &GameObject) -> (b: bool)
    requires
        state.objects.wf(),
    ensures
        b == equipment_illegal(*state, *o),
{
    if !is_equipment_style(o) || !o.zone.is_battlefield() {
        return false;
    }
    match o.attached_to {
        Some(t) => !is_legal_host(state, t, TypeLine::CREATURE),
        None => false,
    }
}

fn fortification_is_illegal(state: &GameState, o: &GameObject) -> (b: bool)
    requires
        state.objects.wf(),
    ensures
        b == fortification_illegal(*state, *o),
{
    if !o.characteristics.is_fortification || !o.zone.is_battlefield() {
        return false;
    }
    match o.attached_to {
        Some(t) => !is_legal_host(state, t, TypeLine::LAND),
        None => false,
    }
}

fn aura_is_illegal(state: &GameState, o: &GameObject) -> (b: bool)
    requires
        state.objects.wf(),
    ensures
        b == aura_illegal(*state, *o),
{
    if !o.characteristics.is_aura || !o.zone.is_battlefield() {
        return false;
    }
    match o.attached_to {
        Some(t) => match state.objects.get(t) {
            Some(h) => !h.zone.is_battlefield(),
            None => true,
        },
        None => true,
    }
}

/// Is Equipment attached to something other than a battlefield creature?
pub fn pending_attachment_illegal(state: &GameState) -> (b: bool)
    requires
        state.objects.wf(),
    ensures
        b == spec_pending_equipment(*state),
{
    let objs = &state.objects.objs;
    let mut i: usize = 0;
    while i < objs.len()
        invariant
            state.objects.wf(),
            objs == &state.objects.objs,
            i <= objs@.len(),
            forall|k: int| 0 <= k < i ==> !equipment_illegal(*state, #[trigger] objs@[k]),
        decreases objs@.len() - i,
    {
        if equipment_is_illegal(state, &objs[i]) {
            return true;
        }
        i = i + 1;
    }
    false
}

/// Is a Fortification attached to something other than a battlefield land?
pub fn pending_fortification_illegal(state: &GameState) -> (b: bool)
    requires
        state.objects.wf(),
    ensures
        b == spec_pending_fortification(*state),
{
    let objs = &state.objects.objs;
    let mut i: usize = 0;
    while i < objs.len()
        invariant
            state.objects.wf(),
            objs == &state.objects.objs,
            i <= objs@.len(),
            forall|k: int| 0 <= k < i ==> !fortification_illegal(*state, #[trigger] objs@[k]),
        decreases objs@.len() - i,
    {
        if fortification_is_illegal(state, &objs[i]) {
            return true;
        }
        i = i + 1;
    }
    false
}

/// Is an Aura unattached or attached to something off the battlefield?
pub fn pending_aura_illegal(state: &GameState) -> (b: bool)
    requires
        state.objects.wf(),
    ensures
        b == spec_pending_aura(*state),
{
    let objs = &state.objects.objs;
    let mut i: usize = 0;
    while i < objs.len()
        invariant
            state.objects.wf(),
            objs == &state.objects.objs,
            i <= objs@.len(),
            forall|k: int| 0 <= k < i ==> !aura_illegal(*state, #[trigger] objs@[k]),
        decreases objs@.len() - i,
    {
        if aura_is_illegal(state, &objs[i]) {
            return true;
        }
        i = i + 1;
    }
    false
}

/// Does any state-based action apply right now?
pub fn has_pending_state_based_actions(state: &GameState) -> (b: bool)
    requires
        state.objects.wf(),
    ensures
        b == spec_has_pending(*state),
{
    pending_player_loss(state) || pending_creature_to_graveyard(state) || pending_planeswalker_to_graveyard(state)
        || pending_legend_conflict(state) || pending_pt_annihilation(state) || pending_token_cease(state)
        || pending_attachment_illegal(state) || pending_fortification_illegal(state) || pending_aura_illegal(state)
}


// =============================================================================
// The actions
// =============================================================================

pub open spec fn loss_reason(pl: PlayerState) -> LoseReason {
    if pl.life <= 0 {
        LoseReason::LifeZero
    } else if pl.has_drawn_from_empty_library {
        LoseReason::Decked
    } else {
        LoseReason::PoisonCounters
    }
}

/// The losses logged for the first `n` players, in seat order.
pub open spec fn loss_events(ps: Seq<PlayerState>, n: int) -> Seq<GameEvent>
    decreases n,
{
    if n <= 0 {
        Seq::empty()
    } else {
        let rest = loss_events(ps, n - 1);
        if should_lose(ps[n - 1]) {
            rest.push(GameEvent::PlayerLoses { player: (n - 1) as u8, reason: loss_reason(ps[n - 1]) })
        } else {
            rest
        }
    }
}

/// The log of `s`, from position `from` on, records player `p` losing as
/// `pl` gives the reason.
pub open spec fn loss_logged(s: GameState, from: int, p: int, pl: PlayerState) -> bool {
    exists|i: int|
        from <= i < s.event_log@.len() && s.event_log@[i] == (GameEvent::PlayerLoses {
            player: p as u8,
            reason: loss_reason(pl),
        })
}

/// Each player of `s0` who met a losing condition and has lost in `s` is
/// logged as losing after `s0`'s log.
pub open spec fn losses_logged(s0: GameState, s: GameState) -> bool {
    forall|p: int|
        0 <= p < s0.players@.len() && should_lose(s0.players@[p]) && s.players@[p] == after_loss_check(s0.players@[p])
            ==> #[trigger] loss_logged(s, s0.event_log@.len() as int, p, s0.players@[p])
}

/// The losses logged for the first `n` players hold each one who loses.
proof fn lemma_loss_events_hold(ps: Seq<PlayerState>, n: int, p: int)
    requires
        0 <= p < n <= ps.len(),
        should_lose(ps[p]),
    ensures
        exists|i: int|
            0 <= i < loss_events(ps, n).len() && loss_events(ps, n)[i] == (GameEvent::PlayerLoses {
                player: p as u8,
                reason: loss_reason(ps[p]),
            }),
    decreases n,
{
    if p < n - 1 {
        lemma_loss_events_hold(ps, n - 1, p);
        let i = choose|i: int|
            #![trigger loss_events(ps, n - 1)[i]]
            0 <= i < loss_events(ps, n - 1).len() && loss_events(ps, n - 1)[i] == (GameEvent::PlayerLoses {
                player: p as u8,
                reason: loss_reason(ps[p]),
            });
        assert(loss_events(ps, n)[i] == loss_events(ps, n - 1)[i]);
    } else {
        let l = loss_events(ps, n - 1).len() as int;
        assert(loss_events(ps, n)[l] == (GameEvent::PlayerLoses { player: p as u8, reason: loss_reason(ps[p]) }));
    }
}

/// Logged losses stay logged while the log only grows.
proof fn lemma_losses_logged_frame(s0: GameState, a: GameState, b: GameState)
    requires
        losses_logged(s0, a),
        sba_frame(a, b),
        b.players == a.players,
    ensures
        losses_logged(s0, b),
{
    assert forall|p: int|
        0 <= p < s0.players@.len() && should_lose(s0.players@[p]) && b.players@[p] == after_loss_check(s0.players@[p])
            implies #[trigger] loss_logged(b, s0.event_log@.len() as int, p, s0.players@[p]) by {
        assert(loss_logged(a, s0.event_log@.len() as int, p, s0.players@[p]));
        let i = choose|i: int|
            s0.event_log@.len() <= i < a.event_log@.len() && a.event_log@[i] == (GameEvent::PlayerLoses {
                player: p as u8,
                reason: loss_reason(s0.players@[p]),
            });
        assert(b.event_log@[i] == b.event_log@.take(a.event_log@.len() as int)[i]);
    }
}

/// Player `pl` after the losses check.
pub open spec fn after_loss_check(pl: PlayerState) -> PlayerState {
    if should_lose(pl) {
        PlayerState { has_lost: true, ..pl }
    } else {
        pl
    }
}

/// What every state-based action step keeps: the loop invariant, and a
/// measure that never grows and shrinks when the step did something.
pub open spec fn step_ok(old: GameState, new: GameState, fired: bool) -> bool {
    &&& sba_inv(new)
    &&& measure(new) <= measure(old)
    &&& fired ==> measure(new) < measure(old)
    &&& !fired ==> new == old
}

/// CR 704.5a/b/c: players with 0 or less life, who drew from an empty
/// library, or with ten or more poison counters lose.
fn check_player_losses(state: &mut GameState) -> (fired: bool)
    requires
        sba_inv(*old(state)),
    ensures
        step_ok(*old(state), *final(state), fired),
        fired == spec_pending_player_loss(*old(state)),
        final(state).players@.len() == old(state).players@.len(),
        forall|p: int|
            0 <= p < old(state).players@.len() ==> #[trigger] final(state).players@[p] == after_loss_check(
                old(state).players@[p],
            ),
        final(state).event_log@ == old(state).event_log@ + loss_events(old(state).players@, old(state).players@.len() as int),
        *final(state) == (GameState { players: final(state).players, event_log: final(state).event_log, ..*old(state) }),
{
    let ghost s0 = *state;
    let n = state.num_players();
    let mut any = false;
    let mut p: u8 = 0;
    while p < n
        invariant
            sba_inv(s0),
            n == s0.players@.len(),
            p <= n,
            state.players@.len() == n,
            forall|q: int| 0 <= q < p ==> #[trigger] state.players@[q] == after_loss_check(s0.players@[q]),
            forall|q: int| p <= q < n ==> #[trigger] state.players@[q] == s0.players@[q],
            state.event_log@ == s0.event_log@ + loss_events(s0.players@, p as int),
            *state == (GameState { players: state.players, event_log: state.event_log, ..s0 }),
            any == exists|q: int| 0 <= q < p && should_lose(#[trigger] s0.players@[q]),
            count_where(state.players@, alive_pred()) <= count_where(s0.players@, alive_pred()),
            any ==> count_where(state.players@, alive_pred()) < count_where(s0.players@, alive_pred()),
            !any ==> *state == s0,
        decreases n - p,
    {
        let pl = state.player(p);
        let lose = !pl.has_lost && (pl.life <= 0 || pl.has_drawn_from_empty_library || pl.poison_counters >= 10);
        if lose {
            let reason = if pl.life <= 0 {
                LoseReason::LifeZero
            } else if pl.has_drawn_from_empty_library {
                LoseReason::Decked
            } else {
                LoseReason::PoisonCounters
            };
            let ghost before = *state;
            state.player_mut(p).has_lost = true;
            proof {
                lemma_count_update(before.players@, p as int, state.players@[p as int], alive_pred());
            }
            state.emit(GameEvent::PlayerLoses { player: p, reason });
            any = true;
        }
        proof {
            assert(state.event_log@ =~= s0.event_log@ + loss_events(s0.players@, p + 1));
        }
        p = p + 1;
    }
    proof {
        if !any {
            assert(!spec_pending_player_loss(s0));
        }
        assert forall|k: ObjectId| #[trigger] state.objects@.contains_key(k) implies k < state.next_object_id by {
            assert(s0.objects@.contains_key(k));
        }
    }
    any
}


/// `n` is `o` with matching +1/+1 and -1/-1 counters removed in pairs.
pub open spec fn annihilated(o: GameObject, n: GameObject) -> bool {
    let plus = o.counters.count(CounterKind::PlusOnePlusOne);
    let minus = o.counters.count(CounterKind::MinusOneMinusOne);
    let pairs = if plus < minus { plus } else { minus };
    &&& n == (GameObject { counters: n.counters, ..o })
    &&& n.counters.count(CounterKind::PlusOnePlusOne) == plus - pairs
    &&& n.counters.count(CounterKind::MinusOneMinusOne) == minus - pairs
    &&& forall|k: CounterKind|
        k != CounterKind::PlusOnePlusOne && k != CounterKind::MinusOneMinusOne ==> #[trigger] n.counters.count(k)
            == o.counters.count(k)
}

/// The counter removals logged for the first `n` objects of `s`.
pub open spec fn annihilation_events(s: Seq<GameObject>, n: int) -> Seq<GameEvent>
    decreases n,
{
    if n <= 0 {
        Seq::empty()
    } else {
        let rest = annihilation_events(s, n - 1);
        let o = s[n - 1];
        if annihilatable(o) {
            let plus = o.counters.count(CounterKind::PlusOnePlusOne);
            let minus = o.counters.count(CounterKind::MinusOneMinusOne);
            let pairs = if plus < minus { plus } else { minus };
            rest.push(GameEvent::CounterRemoved { object_id: o.id, kind: CounterKind::PlusOnePlusOne, count: pairs }).push(
                GameEvent::CounterRemoved { object_id: o.id, kind: CounterKind::MinusOneMinusOne, count: pairs },
            )
        } else {
            rest
        }
    }
}

/// CR 704.5p: +1/+1 and -1/-1 counters on a permanent are removed in pairs.
fn annihilate_pt_counters(state: &mut GameState) -> (fired: bool)
    requires
        sba_inv(*old(state)),
    ensures
        step_ok(*old(state), *final(state), fired),
        fired == spec_pending_annihilation(*old(state)),
        final(state).objects.ids@ == old(state).objects.ids@,
        final(state).objects.objs@.len() == old(state).objects.objs@.len(),
        forall|k: int|
            0 <= k < old(state).objects.objs@.len() ==> if annihilatable(old(state).objects.objs@[k]) {
                annihilated(old(state).objects.objs@[k], #[trigger] final(state).objects.objs@[k])
            } else {
                final(state).objects.objs@[k] == old(state).objects.objs@[k]
            },
        final(state).event_log@ == old(state).event_log@ + annihilation_events(
            old(state).objects.objs@,
            old(state).objects.objs@.len() as int,
        ),
        *final(state) == (GameState { objects: final(state).objects, event_log: final(state).event_log, ..*old(state) }),
{
    let ghost s0 = *state;
    let mut any = false;
    let mut i: usize = 0;
    while i < state.objects.objs.len()
        invariant
            sba_inv(s0),
            state.objects.ids@ == s0.objects.ids@,
            state.objects.objs@.len() == s0.objects.objs@.len(),
            i <= s0.objects.objs@.len(),
            forall|k: int|
                0 <= k < i ==> if annihilatable(s0.objects.objs@[k]) {
                    annihilated(s0.objects.objs@[k], #[trigger] state.objects.objs@[k])
                } else {
                    state.objects.objs@[k] == s0.objects.objs@[k]
                },
            forall|k: int| i <= k < s0.objects.objs@.len() ==> #[trigger] state.objects.objs@[k] == s0.objects.objs@[k],
            state.event_log@ == s0.event_log@ + annihilation_events(s0.objects.objs@, i as int),
            *state == (GameState { objects: state.objects, event_log: state.event_log, ..s0 }),
            any == exists|k: int| 0 <= k < i && annihilatable(#[trigger] s0.objects.objs@[k]),
            count_where(state.objects.objs@, bf_pred()) == count_where(s0.objects.objs@, bf_pred()),
            count_where(state.objects.objs@, tok_pred()) == count_where(s0.objects.objs@, tok_pred()),
            count_where(state.objects.objs@, att_pred()) == count_where(s0.objects.objs@, att_pred()),
            count_where(state.objects.objs@, ann_pred()) <= count_where(s0.objects.objs@, ann_pred()),
            any ==> count_where(state.objects.objs@, ann_pred()) < count_where(s0.objects.objs@, ann_pred()),
            !any ==> *state == s0,
        decreases s0.objects.objs@.len() - i,
    {
        let hit = {
            let o = &state.objects.objs[i];
            o.zone.is_battlefield() && o.has_counter(CounterKind::PlusOnePlusOne) && o.has_counter(
                CounterKind::MinusOneMinusOne,
            )
        };
        if hit {
            let ghost before = *state;
            let id = state.objects.objs[i].id;
            let pairs = state.objects.objs[i].annihilate_pt_counters();
            proof {
                let n = state.objects.objs@[i as int];
                assert(state.objects.objs@ == before.objects.objs@.update(i as int, n));
                lemma_update_in_place(before, *state, i as int, n);
                lemma_count_update(before.objects.objs@, i as int, n, att_pred());
            }
            state.emit(GameEvent::CounterRemoved { object_id: id, kind: CounterKind::PlusOnePlusOne, count: pairs });
            state.emit(GameEvent::CounterRemoved { object_id: id, kind: CounterKind::MinusOneMinusOne, count: pairs });
            any = true;
        }
        proof {
            assert(state.event_log@ =~= s0.event_log@ + annihilation_events(s0.objects.objs@, i + 1));
        }
        i = i + 1;
    }
    proof {
        assert(state.objects.wf());
        assert(state.objects@ == s0.objects@.dom().mk_map(|k: ObjectId| state.objects@[k])) by {
            assert(state.objects@.dom() =~= s0.objects@.dom());
        }
        assert forall|k: ObjectId| #[trigger] state.objects@.contains_key(k) implies k < state.next_object_id by {
            assert(state.objects.ids@.contains(k));
            assert(s0.objects@.contains_key(k));
        }
    }
    any
}

/// CR 704.5d: tokens outside the battlefield cease to exist.
fn check_token_ceases_to_exist(state: &mut GameState) -> (fired: bool)
    requires
        sba_inv(*old(state)),
    ensures
        step_ok(*old(state), *final(state), fired),
        fired == spec_pending_token(*old(state)),
        forall|k: ObjectId|
            #[trigger] final(state).objects@.contains_key(k) <==> (old(state).objects@.contains_key(k)
                && !token_astray(old(state).objects@[k])),
        forall|k: ObjectId| #[trigger] final(state).objects@.contains_key(k) ==> final(state).objects@[k] == old(state).objects@[k],
        *final(state) == (GameState { objects: final(state).objects, ..*old(state) }),
{
    let ghost s0 = *state;
    let mut ids: Vec<ObjectId> = Vec::new();
    let mut i: usize = 0;
    while i < state.objects.objs.len()
        invariant
            sba_inv(s0),
            *state == s0,
            i <= s0.objects.objs@.len(),
            ids@.len() <= i,
            forall|k: int| 0 <= k < ids@.len() ==> exists|j: int| 0 <= j < i && #[trigger] ids@[k] == s0.objects.ids@[j] && token_astray(s0.objects.objs@[j]),
            forall|j: int| 0 <= j < i && token_astray(#[trigger] s0.objects.objs@[j]) ==> ids@.contains(s0.objects.ids@[j]),
            ids_sorted(ids@),
            ids@.len() > 0 ==> exists|j: int| 0 <= j < i && ids@.last() == s0.objects.ids@[j],
        decreases s0.objects.objs@.len() - i,
    {
        let o = &state.objects.objs[i];
        if o.is_token && !o.zone.is_battlefield() {
            let ghost before = ids@;
            ids.push(o.id);
            proof {
                assert(o.id == s0.objects.ids@[i as int]);
                assert forall|a: int, b: int| 0 <= a < b < ids@.len() implies ids@[a] < ids@[b] by {
                    if b == ids@.len() - 1 {
                        let j = choose|j: int| 0 <= j < i && #[trigger] before[a] == s0.objects.ids@[j] && token_astray(s0.objects.objs@[j]);
                        assert(s0.objects.ids@[j] < s0.objects.ids@[i as int]);
                    }
                }
                assert forall|k: int| 0 <= k < ids@.len() implies exists|j: int| 0 <= j < i + 1 && #[trigger] ids@[k] == s0.objects.ids@[j] && token_astray(s0.objects.objs@[j]) by {
                    if k < before.len() {
                        assert(ids@[k] == before[k]);
                    } else {
                        assert(ids@[k] == s0.objects.ids@[i as int]);
                    }
                }
                assert forall|j: int| 0 <= j < i + 1 && token_astray(#[trigger] s0.objects.objs@[j]) implies ids@.contains(s0.objects.ids@[j]) by {
                    if j < i {
                        assert(before.contains(s0.objects.ids@[j]));
                        let k = choose|k: int| 0 <= k < before.len() && before[k] == s0.objects.ids@[j];
                        assert(ids@[k] == before[k]);
                    } else {
                        assert(ids@[ids@.len() - 1] == s0.objects.ids@[j]);
                    }
                }
            }
        }
        i = i + 1;
    }
    proof {
        assert forall|k: int| 0 <= k < ids@.len() implies s0.objects@.contains_key(#[trigger] ids@[k]) && token_astray(s0.objects@[ids@[k]]) by {
            let j = choose|j: int| 0 <= j < s0.objects.objs@.len() && #[trigger] ids@[k] == s0.objects.ids@[j] && token_astray(s0.objects.objs@[j]);
            s0.objects.lemma_at(j);
        }
    }
    let mut r: usize = 0;
    while r < ids.len()
        invariant
            sba_inv(s0),
            r <= ids@.len(),
            ids_sorted(ids@),
            forall|k: int| 0 <= k < ids@.len() ==> s0.objects@.contains_key(#[trigger] ids@[k]) && token_astray(s0.objects@[ids@[k]]),
            state.objects.wf(),
            forall|k: ObjectId| #[trigger] state.objects@.contains_key(k) <==> (s0.objects@.contains_key(k)
                && !ids@.take(r as int).contains(k)),
            forall|k: ObjectId| #[trigger] state.objects@.contains_key(k) ==> state.objects@[k] == s0.objects@[k],
            *state == (GameState { objects: state.objects, ..s0 }),
            count_where(state.objects.objs@, bf_pred()) == count_where(s0.objects.objs@, bf_pred()),
            count_where(state.objects.objs@, att_pred()) == count_where(s0.objects.objs@, att_pred()),
            count_where(state.objects.objs@, ann_pred()) == count_where(s0.objects.objs@, ann_pred()),
            count_where(state.objects.objs@, tok_pred()) + r == count_where(s0.objects.objs@, tok_pred()),
            r == 0 ==> *state == s0,
        decreases ids@.len() - r,
    {
        let id = ids[r];
        let ghost before = *state;
        proof {
            assert(before.objects@.contains_key(id)) by {
                if ids@.take(r as int).contains(id) {
                    let k = choose|k: int| 0 <= k < r && #[trigger] ids@.take(r as int)[k] == id;
                    assert(ids@[k] < ids@[r as int]);
                }
            }
            before.objects.lemma_index(id);
        }
        state.objects.remove(id);
        proof {
            let i0 = before.objects.index_of(id);
            let o = before.objects.objs@[i0];
            assert(o == s0.objects@[id]);
            lemma_count_remove(before.objects.objs@, i0, bf_pred());
            lemma_count_remove(before.objects.objs@, i0, att_pred());
            lemma_count_remove(before.objects.objs@, i0, ann_pred());
            lemma_count_remove(before.objects.objs@, i0, tok_pred());
            assert forall|k: ObjectId| #[trigger] state.objects@.contains_key(k) <==> (s0.objects@.contains_key(k)
                && !ids@.take(r + 1).contains(k)) by {
                if ids@.take(r + 1).contains(k) && !ids@.take(r as int).contains(k) {
                    let j = choose|j: int| 0 <= j < r + 1 && #[trigger] ids@.take(r + 1)[j] == k;
                    if j < r {
                        assert(ids@.take(r as int)[j] == k);
                    }
                }
                if ids@.take(r as int).contains(k) {
                    let j = choose|j: int| 0 <= j < r && #[trigger] ids@.take(r as int)[j] == k;
                    assert(ids@.take(r + 1)[j] == k);
                }
                if k == id {
                    assert(ids@.take(r + 1)[r as int] == id);
                }
            }
        }
        r = r + 1;
    }
    proof {
        assert(ids@.take(r as int) =~= ids@);
        assert forall|k: ObjectId| #[trigger] state.objects@.contains_key(k) <==> (s0.objects@.contains_key(k)
            && !token_astray(s0.objects@[k])) by {
            if s0.objects@.contains_key(k) {
                s0.objects.lemma_index(k);
                let j = s0.objects.index_of(k);
                if token_astray(s0.objects@[k]) {
                    assert(token_astray(s0.objects.objs@[j]));
                }
            }
            if ids@.contains(k) {
                let j = choose|j: int| 0 <= j < ids@.len() && #[trigger] ids@[j] == k;
            }
        }
        assert forall|k: ObjectId| #[trigger] state.objects@.contains_key(k) implies k < state.next_object_id by {
            assert(s0.objects@.contains_key(k));
        }
        if ids@.len() > 0 {
            let j = choose|j: int| 0 <= j < s0.objects.objs@.len() && #[trigger] ids@[0] == s0.objects.ids@[j] && token_astray(s0.objects.objs@[j]);
            assert(spec_pending_token(s0));
        } else {
            assert(!spec_pending_token(s0)) by {
                if spec_pending_token(s0) {
                    let j = choose|j: int| 0 <= j < s0.objects.objs@.len() && token_astray(#[trigger] s0.objects.objs@[j]);
                    assert(ids@.contains(s0.objects.ids@[j]));
                }
            }
        }
    }
    ids.len() > 0
}


/// The per-object state-based actions.
#[derive(Clone, Copy, Debug, PartialEq, Eq, Structural)]
pub enum ObjectCheck {
    CreatureDeath,
    PlaneswalkerDeath,
    IllegalEquipment,
    IllegalFortification,
    IllegalAura,
}

pub open spec fn check_pred(s: GameState, c: ObjectCheck, o: GameObject) -> bool {
    match c {
        ObjectCheck::CreatureDeath => creature_should_die(o, s.continuous_effects@),
        ObjectCheck::PlaneswalkerDeath => pw_should_die(o),
        ObjectCheck::IllegalEquipment => equipment_illegal(s, o),
        ObjectCheck::IllegalFortification => fortification_illegal(s, o),
        ObjectCheck::IllegalAura => aura_illegal(s, o),
    }
}

fn check_holds(state: &GameState, c: ObjectCheck, o: &GameObject) -> (b: bool)
    requires
        state.objects.wf(),
    ensures
        b == check_pred(*state, c, *o),
{
    match c {
        ObjectCheck::CreatureDeath => creature_dies(state, o),
        ObjectCheck::PlaneswalkerDeath => o.zone.is_battlefield() && o.is_planeswalker() && planeswalker_loyalty(o) == 0,
        ObjectCheck::IllegalEquipment => equipment_is_illegal(state, o),
        ObjectCheck::IllegalFortification => fortification_is_illegal(state, o),
        ObjectCheck::IllegalAura => aura_is_illegal(state, o),
    }
}

/// `ids` are, in ascending order, the ids of the objects of `s` that
/// check `c` selects.
pub open spec fn selected(s: GameState, c: ObjectCheck, ids: Seq<ObjectId>) -> bool {
    &&& ids_sorted(ids)
    &&& forall|k: int|
        0 <= k < ids.len() ==> s.objects@.contains_key(#[trigger] ids[k]) && check_pred(s, c, s.objects@[ids[k]])
    &&& forall|j: int|
        0 <= j < s.objects.objs@.len() && check_pred(s, c, #[trigger] s.objects.objs@[j]) ==> ids.contains(
            s.objects.objs@[j].id,
        )
}

/// Ids of the objects that check `c` selects, ascending.
fn collect_ids(state: &GameState, c: ObjectCheck) -> (ids: Vec<ObjectId>)
    requires
        state.objects.wf(),
    ensures
        selected(*state, c, ids@),
{
    let mut ids: Vec<ObjectId> = Vec::new();
    let mut i: usize = 0;
    while i < state.objects.objs.len()
        invariant
            state.objects.wf(),
            i <= state.objects.objs@.len(),
            forall|k: int|
                0 <= k < ids@.len() ==> exists|j: int|
                    0 <= j < i && #[trigger] ids@[k] == state.objects.ids@[j] && check_pred(
                        *state,
                        c,
                        state.objects.objs@[j],
                    ),
            forall|j: int|
                0 <= j < i && check_pred(*state, c, #[trigger] state.objects.objs@[j]) ==> ids@.contains(
                    state.objects.objs@[j].id,
                ),
            ids_sorted(ids@),
            ids@.len() > 0 ==> exists|j: int| 0 <= j < i && ids@.last() == state.objects.ids@[j],
        decreases state.objects.objs@.len() - i,
    {
        let o = &state.objects.objs[i];
        if check_holds(state, c, o) {
            let ghost before = ids@;
            ids.push(o.id);
            proof {
                assert(o.id == state.objects.ids@[i as int]);
                assert forall|a: int, b: int| 0 <= a < b < ids@.len() implies ids@[a] < ids@[b] by {
                    if b == ids@.len() - 1 {
                        let j = choose|j: int|
                            0 <= j < i && #[trigger] before[a] == state.objects.ids@[j] && check_pred(
                                *state,
                                c,
                                state.objects.objs@[j],
                            );
                        assert(state.objects.ids@[j] < state.objects.ids@[i as int]);
                    }
                }
                assert forall|k: int| 0 <= k < ids@.len() implies exists|j: int|
                    0 <= j < i + 1 && #[trigger] ids@[k] == state.objects.ids@[j] && check_pred(
                        *state,
                        c,
                        state.objects.objs@[j],
                    ) by {
                    if k < before.len() {
                        assert(ids@[k] == before[k]);
                    } else {
                        assert(ids@[k] == state.objects.ids@[i as int]);
                    }
                }
                assert forall|j: int|
                    0 <= j < i + 1 && check_pred(*state, c, #[trigger] state.objects.objs@[j]) implies ids@.contains(
                    state.objects.objs@[j].id,
                ) by {
                    if j < i {
                        let k = choose|k: int| 0 <= k < before.len() && before[k] == state.objects.objs@[j].id;
                        assert(ids@[k] == before[k]);
                    } else {
                        assert(ids@[ids@.len() - 1] == state.objects.objs@[j].id);
                    }
                }
            }
        }
        i = i + 1;
    }
    proof {
        assert forall|k: int| 0 <= k < ids@.len() implies state.objects@.contains_key(#[trigger] ids@[k])
            && check_pred(*state, c, state.objects@[ids@[k]]) by {
            let j = choose|j: int|
                0 <= j < state.objects.objs@.len() && #[trigger] ids@[k] == state.objects.ids@[j] && check_pred(
                    *state,
                    c,
                    state.objects.objs@[j],
                );
            state.objects.lemma_at(j);
        }
    }
    ids
}

/// A selected object makes the list non-empty, and the other way round.
proof fn lemma_selected_nonempty(s: GameState, c: ObjectCheck, ids: Seq<ObjectId>)
    requires
        s.objects.wf(),
        selected(s, c, ids),
    ensures
        ids.len() > 0 <==> exists|j: int| 0 <= j < s.objects.objs@.len() && check_pred(s, c, #[trigger] s.objects.objs@[j]),
{
    if ids.len() > 0 {
        s.objects.lemma_index(ids[0]);
        let j = s.objects.index_of(ids[0]);
        assert(check_pred(s, c, s.objects.objs@[j]));
    }
    if exists|j: int| 0 <= j < s.objects.objs@.len() && check_pred(s, c, #[trigger] s.objects.objs@[j]) {
        let j = choose|j: int| 0 <= j < s.objects.objs@.len() && check_pred(s, c, #[trigger] s.objects.objs@[j]);
        assert(ids.contains(s.objects.objs@[j].id));
    }
}

/// Move battlefield object `id` elsewhere as a state-based action.
fn sba_move(state: &mut GameState, id: ObjectId, to: Zone)
    requires
        sba_inv(*old(state)),
        old(state).objects@.contains_key(id),
        on_bf(old(state).objects@[id]),
        to != Zone::Battlefield,
    ensures
        sba_inv(*final(state)),
        measure(*final(state)) < measure(*old(state)),
        left_zone(*old(state), *final(state), id, old(state).next_object_id, to, MoveCause::StateBasedAction),
{
    proof {
        old(state).objects.lemma_index(id);
        crate::counting::lemma_count_witness(old(state).objects.objs@, bf_pred(), old(state).objects.index_of(id));
    }
    let ghost s0 = *state;
    state.move_object_to_zone(id, to, MoveCause::StateBasedAction);
    proof {
        lemma_move_off_bf(s0, *state, id, s0.next_object_id, to, MoveCause::StateBasedAction);
    }
}

/// `s` without creature `id` in combat.
/// `s` without `id`.
pub open spec fn ids_without(s: Seq<ObjectId>, id: ObjectId) -> Seq<ObjectId>
    decreases s.len(),
{
    if s.len() == 0 {
        Seq::empty()
    } else {
        ids_without(s.drop_last(), id) + if s.last() == id {
            Seq::empty()
        } else {
            seq![s.last()]
        }
    }
}

/// An attacker entry as plain values: attacker, defender, blockers.
pub open spec fn attacker_view(a: crate::state::AttackerInfo) -> (ObjectId, PlayerId, Seq<ObjectId>) {
    (a.object_id, a.defender, a.blocked_by@)
}

/// The attacker entries of `s` as plain values.
pub open spec fn attackers_view(s: Seq<crate::state::AttackerInfo>) -> Seq<(ObjectId, PlayerId, Seq<ObjectId>)>
    decreases s.len(),
{
    if s.len() == 0 {
        Seq::empty()
    } else {
        attackers_view(s.drop_last()).push(attacker_view(s.last()))
    }
}

/// Attacker entries with `id` gone: its own entry dropped and `id` taken
/// out of every list of blockers.
pub open spec fn attackers_without(s: Seq<(ObjectId, PlayerId, Seq<ObjectId>)>, id: ObjectId) -> Seq<
    (ObjectId, PlayerId, Seq<ObjectId>),
>
    decreases s.len(),
{
    if s.len() == 0 {
        Seq::empty()
    } else {
        let a = s.last();
        attackers_without(s.drop_last(), id) + if a.0 == id {
            Seq::empty()
        } else {
            seq![(a.0, a.1, ids_without(a.2, id))]
        }
    }
}

/// Blocker entries without those of `id`.
pub open spec fn blockers_without(s: Seq<crate::state::BlockerInfo>, id: ObjectId) -> Seq<crate::state::BlockerInfo>
    decreases s.len(),
{
    if s.len() == 0 {
        Seq::empty()
    } else {
        blockers_without(s.drop_last(), id) + if s.last().object_id == id {
            Seq::empty()
        } else {
            seq![s.last()]
        }
    }
}

/// Combat after creature `id` is taken out of it (CR 506.4).
pub open spec fn combat_without(before: Option<crate::state::CombatState>, after: Option<crate::state::CombatState>, id: ObjectId) -> bool {
    match (before, after) {
        (Some(b), Some(a)) => attackers_view(a.attackers@) == attackers_without(attackers_view(b.attackers@), id)
            && a.blockers@ == blockers_without(b.blockers@, id) && a.phase == b.phase,
        (None, None) => true,
        _ => false,
    }
}

/// Take creature `id` out of combat (CR 506.4).
fn remove_from_combat(state: &mut GameState, id: ObjectId)
    ensures
        combat_without(old(state).combat, final(state).combat, id),
        *final(state) == (GameState { combat: final(state).combat, ..*old(state) }),
{
    let combat = match &state.combat {
        Some(c) => {
            let mut attackers: Vec<crate::state::AttackerInfo> = Vec::new();
            let mut i: usize = 0;
            while i < c.attackers.len()
                invariant
                    i <= c.attackers@.len(),
                    attackers_view(attackers@) == attackers_without(attackers_view(c.attackers@.take(i as int)), id),
                decreases c.attackers@.len() - i,
            {
                let a = &c.attackers[i];
                proof {
                    let t = c.attackers@.take(i + 1);
                    assert(t.drop_last() =~= c.attackers@.take(i as int));
                    assert(attackers_view(t).drop_last() == attackers_view(t.drop_last()));
                    assert(attackers_view(t).last() == attacker_view(c.attackers@[i as int]));
                }
                if a.object_id != id {
                    let mut blocked_by: Vec<ObjectId> = Vec::new();
                    let mut j: usize = 0;
                    while j < a.blocked_by.len()
                        invariant
                            j <= a.blocked_by@.len(),
                            blocked_by@ == ids_without(a.blocked_by@.take(j as int), id),
                        decreases a.blocked_by@.len() - j,
                    {
                        proof {
                            assert(a.blocked_by@.take(j + 1).drop_last() =~= a.blocked_by@.take(j as int));
                        }
                        if a.blocked_by[j] != id {
                            blocked_by.push(a.blocked_by[j]);
                        } else {
                            proof {
                                assert(blocked_by@ + Seq::<ObjectId>::empty() =~= blocked_by@);
                            }
                        }
                        j = j + 1;
                    }
                    proof {
                        assert(a.blocked_by@.take(j as int) =~= a.blocked_by@);
                    }
                    let ghost before = attackers@;
                    attackers.push(crate::state::AttackerInfo { object_id: a.object_id, defender: a.defender, blocked_by });
                    proof {
                        assert(attackers@.drop_last() =~= before);
                        assert(attackers_view(attackers@) == attackers_view(before).push(attacker_view(attackers@.last())));
                    }
                } else {
                    proof {
                        assert(attackers_view(attackers@) + Seq::<(ObjectId, PlayerId, Seq<ObjectId>)>::empty()
                            =~= attackers_view(attackers@));
                    }
                }
                i = i + 1;
            }
            proof {
                assert(c.attackers@.take(i as int) =~= c.attackers@);
            }
            let mut blockers: Vec<crate::state::BlockerInfo> = Vec::new();
            let mut k: usize = 0;
            while k < c.blockers.len()
                invariant
                    k <= c.blockers@.len(),
                    blockers@ == blockers_without(c.blockers@.take(k as int), id),
                decreases c.blockers@.len() - k,
            {
                proof {
                    assert(c.blockers@.take(k + 1).drop_last() =~= c.blockers@.take(k as int));
                }
                if c.blockers[k].object_id != id {
                    blockers.push(c.blockers[k]);
                } else {
                    proof {
                        assert(blockers@ + Seq::<crate::state::BlockerInfo>::empty() =~= blockers@);
                    }
                }
                k = k + 1;
            }
            proof {
                assert(c.blockers@.take(k as int) =~= c.blockers@);
            }
            Some(crate::state::CombatState { phase: c.phase, attackers, blockers })
        },
        None => None,
    };
    state.combat = combat;
}

/// CR 704.5f/g, 702.2b: creatures with toughness 0 or less, lethal damage,
/// or deathtouch damage go to their owners' graveyards, through the die
/// replacements (exiled instead, or regenerated: damage removed, tapped,
/// out of combat).
fn check_creature_graveyard(state: &mut GameState) -> (fired: bool)
    requires
        sba_inv(*old(state)),
    ensures
        step_ok(*old(state), *final(state), fired),
        fired == spec_pending_creature_death(*old(state)),
        final(state).pending_choice == old(state).pending_choice,
        final(state).result == old(state).result,
        final(state).players == old(state).players,
        sba_frame(*old(state), *final(state)),
{
    let ghost s0 = *state;
    let to_kill = collect_ids(state, ObjectCheck::CreatureDeath);
    proof {
        lemma_selected_nonempty(s0, ObjectCheck::CreatureDeath, to_kill@);
    }
    proof {
        assert(s0.event_log@.take(s0.event_log@.len() as int) =~= s0.event_log@);
    }
    let mut r: usize = 0;
    while r < to_kill.len()
        invariant
            sba_inv(s0),
            selected(s0, ObjectCheck::CreatureDeath, to_kill@),
            r <= to_kill@.len(),
            sba_inv(*state),
            measure(*state) <= measure(s0),
            r > 0 ==> measure(*state) < measure(s0),
            r == 0 ==> *state == s0,
            state.pending_choice == s0.pending_choice,
            state.result == s0.result,
            state.players == s0.players,
            sba_frame(s0, *state),
        decreases to_kill@.len() - r,
    {
        let id = to_kill[r];
        let present = match state.objects.get(id) {
            Some(o) => if o.zone.is_battlefield() {
                Some(o.owner)
            } else {
                None
            },
            None => None,
        };
        proof {
            if r == 0 {
                assert(s0.objects@.contains_key(to_kill@[0]));
            }
        }
        if let Some(owner) = present {
            let ghost before = *state;
            proof {
                before.objects.lemma_index(id);
            }
            match state.replace_die(id) {
                DieOutcome::ExileInstead => {
                    sba_move(state, id, Zone::Exile);
                    proof {
                        lemma_frame_left_zone(before, *state, id, Zone::Exile);
                        lemma_frame_trans(s0, before, *state);
                    }
                },
                DieOutcome::Regenerated => {
                    proof {
                        let v = view_of(before);
                        let i = die_pick(v, id)->0;
                        crate::replacement::lemma_die_pick(v, id);
                        crate::counting::lemma_filter_shorter(
                            before.replacement_effects@,
                            |e: ReplacementEffect| e.id != before.replacement_effects@[i].id,
                            i,
                        );
                    }
                    let ghost mid = *state;
                    proof {
                        mid.objects.lemma_index(id);
                    }
                    match state.objects.get_mut(id) {
                        Some(o) => {
                            o.clear_damage();
                            o.tap();
                        },
                        None => {},
                    }
                    proof {
                        let i = mid.objects.index_of(id);
                        let n = state.objects.objs@[i];
                        mid.objects.lemma_update(state.objects, id, n);
                        lemma_update_in_place(mid, *state, i, n);
                        assert(state.objects@.dom() =~= mid.objects@.dom());
                        assert forall|k: ObjectId| #[trigger] state.objects@.contains_key(k) implies k < state.next_object_id by {
                            assert(mid.objects@.contains_key(k));
                        }
                        assert(before.event_log@.take(before.event_log@.len() as int) =~= before.event_log@);
                        lemma_frame_same(before, mid);
                        lemma_frame_trans(s0, before, mid);
                        assert(mid.event_log@.take(mid.event_log@.len() as int) =~= mid.event_log@);
                        lemma_frame_update(mid, *state, id, n);
                        lemma_frame_trans(s0, mid, *state);
                    }
                    let ghost st2 = *state;
                    remove_from_combat(state, id);
                    proof {
                        assert(st2.event_log@.take(st2.event_log@.len() as int) =~= st2.event_log@);
                        lemma_frame_same(st2, *state);
                        lemma_frame_trans(s0, st2, *state);
                    }
                },
                DieOutcome::StillDies => {
                    sba_move(state, id, Zone::Graveyard(owner));
                    proof {
                        lemma_frame_left_zone(before, *state, id, Zone::Graveyard(owner));
                        lemma_frame_trans(s0, before, *state);
                    }
                },
            }
        }
        r = r + 1;
    }
    to_kill.len() > 0
}

/// Move every selected battlefield object to its owner's graveyard.
fn move_selected_to_graveyard(state: &mut GameState, c: ObjectCheck) -> (fired: bool)
    requires
        sba_inv(*old(state)),
    ensures
        step_ok(*old(state), *final(state), fired),
        fired == exists|j: int|
            0 <= j < old(state).objects.objs@.len() && check_pred(*old(state), c, #[trigger] old(state).objects.objs@[j]),
        final(state).pending_choice == old(state).pending_choice,
        final(state).result == old(state).result,
        final(state).players == old(state).players,
        sba_frame(*old(state), *final(state)),
{
    let ghost s0 = *state;
    let ids = collect_ids(state, c);
    proof {
        lemma_selected_nonempty(s0, c, ids@);
    }
    proof {
        assert(s0.event_log@.take(s0.event_log@.len() as int) =~= s0.event_log@);
    }
    let mut r: usize = 0;
    while r < ids.len()
        invariant
            sba_inv(s0),
            selected(s0, c, ids@),
            r <= ids@.len(),
            sba_inv(*state),
            measure(*state) <= measure(s0),
            r > 0 ==> measure(*state) < measure(s0),
            r == 0 ==> *state == s0,
            state.pending_choice == s0.pending_choice,
            state.result == s0.result,
            state.players == s0.players,
            sba_frame(s0, *state),
        decreases ids@.len() - r,
    {
        let id = ids[r];
        let present = match state.objects.get(id) {
            Some(o) => if o.zone.is_battlefield() {
                Some(o.owner)
            } else {
                None
            },
            None => None,
        };
        proof {
            if r == 0 {
                assert(s0.objects@.contains_key(ids@[0]));
            }
        }
        if let Some(owner) = present {
            let ghost before = *state;
            proof {
                before.objects.lemma_index(id);
            }
            sba_move(state, id, Zone::Graveyard(owner));
            proof {
                lemma_frame_left_zone(before, *state, id, Zone::Graveyard(owner));
                lemma_frame_trans(s0, before, *state);
            }
        }
        r = r + 1;
    }
    ids.len() > 0
}


/// CR 704.5q/r: Equipment attached to something other than a battlefield
/// creature, or a Fortification attached to something other than a
/// battlefield land, becomes unattached (and stays on the battlefield).
fn detach_selected(state: &mut GameState, c: ObjectCheck) -> (fired: bool)
    requires
        sba_inv(*old(state)),
        c == ObjectCheck::IllegalEquipment || c == ObjectCheck::IllegalFortification,
    ensures
        step_ok(*old(state), *final(state), fired),
        fired == exists|j: int|
            0 <= j < old(state).objects.objs@.len() && check_pred(*old(state), c, #[trigger] old(state).objects.objs@[j]),
        final(state).pending_choice == old(state).pending_choice,
        final(state).result == old(state).result,
        final(state).players == old(state).players,
        sba_frame(*old(state), *final(state)),
{
    let ghost s0 = *state;
    let ids = collect_ids(state, c);
    proof {
        lemma_selected_nonempty(s0, c, ids@);
    }
    proof {
        assert(s0.event_log@.take(s0.event_log@.len() as int) =~= s0.event_log@);
    }
    let mut r: usize = 0;
    while r < ids.len()
        invariant
            sba_inv(s0),
            selected(s0, c, ids@),
            c == ObjectCheck::IllegalEquipment || c == ObjectCheck::IllegalFortification,
            r <= ids@.len(),
            sba_inv(*state),
            measure(*state) <= measure(s0),
            r > 0 ==> measure(*state) < measure(s0),
            r == 0 ==> *state == s0,
            state.pending_choice == s0.pending_choice,
            state.result == s0.result,
            state.players == s0.players,
            sba_frame(s0, *state),
        decreases ids@.len() - r,
    {
        let id = ids[r];
        let target = match state.objects.get(id) {
            Some(o) => {
                let counted = o.zone.is_battlefield() && (o.characteristics.is_fortification || (
                o.characteristics.types.is_artifact() && !o.characteristics.types.is_enchantment()));
                if counted {
                    o.attached_to
                } else {
                    None
                }
            },
            None => None,
        };
        proof {
            if r == 0 {
                assert(s0.objects@.contains_key(ids@[0]));
            }
        }
        if let Some(t) = target {
            let ghost before = *state;
            proof {
                before.objects.lemma_index(id);
            }
            match state.objects.get_mut(id) {
                Some(o) => {
                    o.detach();
                },
                None => {},
            }
            proof {
                let i = before.objects.index_of(id);
                let n = state.objects.objs@[i];
                before.objects.lemma_update(state.objects, id, n);
                lemma_update_in_place(before, *state, i, n);
                assert(state.objects@.dom() =~= before.objects@.dom());
                assert forall|k: ObjectId| #[trigger] state.objects@.contains_key(k) implies k < state.next_object_id by {
                    assert(before.objects@.contains_key(k));
                }
                assert(before.event_log@.take(before.event_log@.len() as int) =~= before.event_log@);
                lemma_frame_update(before, *state, id, n);
                lemma_frame_trans(s0, before, *state);
            }
            let ghost mid = *state;
            match state.objects.find(t) {
                Some(hi) => {
                    let mut kept: Vec<ObjectId> = Vec::new();
                    let mut k: usize = 0;
                    while k < state.objects.objs[hi].attachments.len()
                        invariant
                            hi < state.objects.objs@.len(),
                            *state == mid,
                            k <= state.objects.objs@[hi as int].attachments@.len(),
                            kept@ == crate::state::without(state.objects.objs@[hi as int].attachments@.take(k as int), id),
                        decreases state.objects.objs@[hi as int].attachments@.len() - k,
                    {
                        let x = state.objects.objs[hi].attachments[k];
                        proof {
                            let a = state.objects.objs@[hi as int].attachments@;
                            assert(a.take(k + 1).drop_last() =~= a.take(k as int));
                            assert(a.take(k + 1).last() == x);
                        }
                        if x != id {
                            kept.push(x);
                        }
                        k = k + 1;
                    }
                    state.objects.objs[hi].attachments = kept;
                    proof {
                        let n = state.objects.objs@[hi as int];
                        mid.objects.lemma_at(hi as int);
                        mid.objects.lemma_update(state.objects, t, n);
                        lemma_update_in_place(mid, *state, hi as int, n);
                        assert(state.objects@.dom() =~= mid.objects@.dom());
                        assert forall|k: ObjectId| #[trigger] state.objects@.contains_key(k) implies k < state.next_object_id by {
                            assert(mid.objects@.contains_key(k));
                        }
                        assert(mid.event_log@.take(mid.event_log@.len() as int) =~= mid.event_log@);
                        lemma_frame_update(mid, *state, t, n);
                        lemma_frame_trans(s0, mid, *state);
                    }
                },
                None => {},
            }
            let ghost pre_emit = *state;
            state.emit(GameEvent::Detached { equipment_or_aura: id, from: t });
            proof {
                assert(state.event_log@.take(pre_emit.event_log@.len() as int) =~= pre_emit.event_log@);
                lemma_frame_same(pre_emit, *state);
                lemma_frame_trans(s0, pre_emit, *state);
            }
        }
        r = r + 1;
    }
    ids.len() > 0
}

// =============================================================================
// Legend rule
// =============================================================================

/// Two or more legendary permanents named `n` are controlled by `c`.
pub open spec fn conflict_key(s: GameState, c: PlayerId, n: crate::types::SmallString) -> bool {
    exists|i: int, j: int|
        0 <= i < j < s.objects.objs@.len() && legendary_on_bf(#[trigger] s.objects.objs@[i]) && legendary_on_bf(
            #[trigger] s.objects.objs@[j],
        ) && s.objects.objs@[i].controller == c && s.objects.objs@[j].controller == c
            && s.objects.objs@[i].characteristics.name == n && s.objects.objs@[j].characteristics.name == n
}

/// `o` is a legendary permanent of the group (`c`, `n`).
pub open spec fn in_group(o: GameObject, c: PlayerId, n: crate::types::SmallString) -> bool {
    legendary_on_bf(o) && o.controller == c && o.characteristics.name == n
}

/// Ids of the group (`c`, `n`) among `s`, in order.
pub open spec fn group_ids(s: Seq<GameObject>, c: PlayerId, n: crate::types::SmallString) -> Seq<ObjectId>
    decreases s.len(),
{
    if s.len() == 0 {
        Seq::empty()
    } else {
        let rest = group_ids(s.drop_last(), c, n);
        if in_group(s.last(), c, n) {
            rest.push(s.last().id)
        } else {
            rest
        }
    }
}

/// `pc` is the legend rule's question on `s`: the controller of the least
/// group in conflict (by controller, then name) picks one of its
/// permanents to keep.
pub open spec fn legend_choice(s: GameState, pc: PendingChoice) -> bool {
    exists|c: PlayerId, n: crate::types::SmallString|
        #![trigger conflict_key(s, c, n)]
        conflict_key(s, c, n) && (forall|c2: PlayerId, n2: crate::types::SmallString|
            #[trigger] conflict_key(s, c2, n2) ==> c < c2 || (c == c2 && n <= n2)) && pc.choosing_player == c
            && pc.context == ChoiceContext::Sba && (pc.kind matches ChoiceKind::PickCards { candidates, min, max }
            && candidates@ == group_ids(s.objects.objs@, c, n) && min == 1 && max == 1)
}

/// Does the group of object `i` hold another object?
fn has_partner(state: &GameState, i: usize) -> (b: bool)
    requires
        i < state.objects.objs@.len(),
        legendary_on_bf(state.objects.objs@[i as int]),
    ensures
        b == exists|j: int|
            0 <= j < state.objects.objs@.len() && j != i && in_group(
                #[trigger] state.objects.objs@[j],
                state.objects.objs@[i as int].controller,
                state.objects.objs@[i as int].characteristics.name,
            ),
{
    let objs = &state.objects.objs;
    let c = objs[i].controller;
    let n = objs[i].characteristics.name;
    let mut j: usize = 0;
    while j < objs.len()
        invariant
            objs == &state.objects.objs,
            i < objs@.len(),
            c == objs@[i as int].controller,
            n == objs@[i as int].characteristics.name,
            j <= objs@.len(),
            forall|k: int| 0 <= k < j && k != i ==> !in_group(#[trigger] objs@[k], c, n),
        decreases objs@.len() - j,
    {
        let o = &objs[j];
        if j != i && o.zone.is_battlefield() && o.characteristics.supertypes.is_legendary() && o.controller == c
            && o.characteristics.name == n {
            return true;
        }
        j = j + 1;
    }
    false
}

/// CR 704.5j: when a player controls two or more legendary permanents with
/// the same name, that player chooses one to keep. The group with the
/// smallest (controller, name) is asked first; the choice lists its ids in
/// ascending order.
fn apply_legend_rule(state: &mut GameState) -> (fired: bool)
    requires
        sba_inv(*old(state)),
    ensures
        fired == spec_pending_legend(*old(state)),
        !fired ==> *final(state) == *old(state),
        fired ==> exists|c: PlayerId, n: crate::types::SmallString|
            #![trigger conflict_key(*old(state), c, n)]
            conflict_key(*old(state), c, n) && (forall|c2: PlayerId, n2: crate::types::SmallString|
                #[trigger] conflict_key(*old(state), c2, n2) ==> c < c2 || (c == c2 && n <= n2)) && (
            final(state).pending_choice matches Some(pc) && pc.choosing_player == c && pc.context
                == ChoiceContext::Sba && (pc.kind matches ChoiceKind::PickCards { candidates, min, max }
                && candidates@ == group_ids(old(state).objects.objs@, c, n) && min == 1 && max == 1)),
        fired ==> *final(state) == (GameState { pending_choice: final(state).pending_choice, ..*old(state) }),
{
    let ghost s0 = *state;
    let objs = &state.objects.objs;
    let mut best: Option<(PlayerId, crate::types::SmallString)> = None;
    let mut i: usize = 0;
    while i < objs.len()
        invariant
            objs == &state.objects.objs,
            *state == s0,
            i <= objs@.len(),
            best matches Some(k) ==> conflict_key(s0, k.0, k.1),
            best matches Some(k) ==> forall|a: int|
                0 <= a < i && legendary_on_bf(#[trigger] objs@[a]) && (exists|j: int|
                    0 <= j < objs@.len() && j != a && in_group(#[trigger] objs@[j], objs@[a].controller, objs@[a].characteristics.name))
                    ==> k.0 < objs@[a].controller || (k.0 == objs@[a].controller && k.1
                    <= objs@[a].characteristics.name),
            best is None ==> forall|a: int|
                0 <= a < i && legendary_on_bf(#[trigger] objs@[a]) ==> !(exists|j: int|
                    0 <= j < objs@.len() && j != a && in_group(#[trigger] objs@[j], objs@[a].controller, objs@[a].characteristics.name)),
        decreases objs@.len() - i,
    {
        let o = &objs[i];
        if o.zone.is_battlefield() && o.characteristics.supertypes.is_legendary() && has_partner(state, i) {
            let key = (o.controller, o.characteristics.name);
            let better = match best {
                None => true,
                Some(b) => key.0 < b.0 || (key.0 == b.0 && key.1 < b.1),
            };
            proof {
                let j = choose|j: int|
                    0 <= j < objs@.len() && j != i && in_group(
                        #[trigger] objs@[j],
                        objs@[i as int].controller,
                        objs@[i as int].characteristics.name,
                    );
                if i < j {
                    assert(conflict_key(s0, key.0, key.1));
                } else {
                    assert(conflict_key(s0, key.0, key.1));
                }
            }
            if better {
                best = Some(key);
            }
        }
        i = i + 1;
    }
    match best {
        None => {
            proof {
                if spec_pending_legend(s0) {
                    let (a, b) = choose|a: int, b: int|
                        0 <= a < b < s0.objects.objs@.len() && legendary_on_bf(#[trigger] s0.objects.objs@[a])
                            && legendary_on_bf(#[trigger] s0.objects.objs@[b]) && s0.objects.objs@[a].controller
                            == s0.objects.objs@[b].controller && s0.objects.objs@[a].characteristics.name
                            == s0.objects.objs@[b].characteristics.name;
                    assert(in_group(s0.objects.objs@[b], s0.objects.objs@[a].controller, s0.objects.objs@[a].characteristics.name));
                }
            }
            false
        },
        Some((c, n)) => {
            let mut candidates: Vec<ObjectId> = Vec::new();
            let mut k: usize = 0;
            while k < objs.len()
                invariant
                    objs == &state.objects.objs,
                    *state == s0,
                    k <= objs@.len(),
                    candidates@ == group_ids(objs@.take(k as int), c, n),
                decreases objs@.len() - k,
            {
                let o = &objs[k];
                proof {
                    assert(objs@.take(k + 1).drop_last() =~= objs@.take(k as int));
                    assert(objs@.take(k + 1).last() == objs@[k as int]);
                }
                if o.zone.is_battlefield() && o.characteristics.supertypes.is_legendary() && o.controller == c
                    && o.characteristics.name == n {
                    candidates.push(o.id);
                }
                k = k + 1;
            }
            proof {
                assert(objs@.take(k as int) =~= objs@);
                assert(spec_pending_legend(s0)) by {
                    let (a, b) = choose|a: int, b: int|
                        0 <= a < b < s0.objects.objs@.len() && legendary_on_bf(#[trigger] s0.objects.objs@[a])
                            && legendary_on_bf(#[trigger] s0.objects.objs@[b]) && s0.objects.objs@[a].controller == c
                            && s0.objects.objs@[b].controller == c && s0.objects.objs@[a].characteristics.name == n
                            && s0.objects.objs@[b].characteristics.name == n;
                }
                assert forall|c2: PlayerId, n2: crate::types::SmallString| #[trigger] conflict_key(s0, c2, n2) implies c < c2
                    || (c == c2 && n <= n2) by {
                    let (a, b) = choose|a: int, b: int|
                        0 <= a < b < s0.objects.objs@.len() && legendary_on_bf(#[trigger] s0.objects.objs@[a])
                            && legendary_on_bf(#[trigger] s0.objects.objs@[b]) && s0.objects.objs@[a].controller == c2
                            && s0.objects.objs@[b].controller == c2 && s0.objects.objs@[a].characteristics.name == n2
                            && s0.objects.objs@[b].characteristics.name == n2;
                    assert(in_group(objs@[b], objs@[a].controller, objs@[a].characteristics.name));
                }
            }
            state.push_pending_choice(
                c,
                ChoiceContext::Sba,
                ChoiceKind::PickCards { candidates, min: 1, max: 1 },
            );
            true
        },
    }
}

// =============================================================================
// Game result
// =============================================================================

/// Seats whose players have not lost.
pub open spec fn alive_count(s: GameState) -> nat {
    count_where(s.players@, alive_pred())
}

/// The result once the losses are in: a draw when nobody is left, a win
/// for the only player left, none otherwise.
pub open spec fn result_after(s: GameState, n: GameState) -> bool {
    if s.result is Some {
        n == s
    } else if alive_count(s) == 0 {
        n == (GameState { result: Some(GameResult::Draw), ..s })
    } else if alive_count(s) == 1 {
        exists|p: int|
            0 <= p < s.players@.len() && !(#[trigger] s.players@[p]).has_lost && n.result == Some(
                GameResult::Win(p as u8),
            ) && n.event_log@ == s.event_log@.push(GameEvent::PlayerWins { player: p as u8 }) && n == (GameState {
                result: n.result,
                event_log: n.event_log,
                ..s
            })
    } else {
        n == s
    }
}

/// The result that a game with players `ps` settles on: a draw when nobody
/// is left, a win for the only player left, none while two or more remain.
pub open spec fn settled_result(ps: Seq<PlayerState>, r: Option<GameResult>) -> bool {
    let alive = count_where(ps, alive_pred());
    if alive == 0 {
        r == Some(GameResult::Draw)
    } else if alive == 1 {
        exists|p: int| 0 <= p < ps.len() && !(#[trigger] ps[p]).has_lost && r == Some(GameResult::Win(p as u8))
    } else {
        r is None
    }
}

/// Each seat of `n` is the seat of `o`, before or after the losses check.
pub open spec fn players_checked_or_kept(o: Seq<PlayerState>, n: Seq<PlayerState>) -> bool {
    &&& n.len() == o.len()
    &&& forall|p: int|
        0 <= p < o.len() ==> #[trigger] n[p] == o[p] || n[p] == after_loss_check(o[p])
}

/// Settling the result leaves the players and the pending choice alone,
/// keeps a result already in and otherwise gives the settled one.
proof fn lemma_result_settles(mid: GameState, fin: GameState)
    requires
        result_after(mid, fin),
    ensures
        fin.players == mid.players,
        fin.pending_choice == mid.pending_choice,
        mid.result is Some ==> fin.result == mid.result,
        mid.result is None ==> settled_result(fin.players@, fin.result),
        mid.result is None ==> (fin.result matches Some(GameResult::Win(w)) ==> fin.event_log@.last() == (
        GameEvent::PlayerWins { player: w })),
{
    if mid.result is None && alive_count(mid) == 1 {
        let p = choose|p: int|
            0 <= p < mid.players@.len() && !(#[trigger] mid.players@[p]).has_lost && fin.result == Some(
                GameResult::Win(p as u8),
            ) && fin.event_log@ == mid.event_log@.push(GameEvent::PlayerWins { player: p as u8 }) && fin == (
            GameState { result: fin.result, event_log: fin.event_log, ..mid });
        assert(!fin.players@[p].has_lost);
    }
}

/// After the state-based actions: the last player standing wins; with no
/// player left the game is a draw.
fn update_game_result(state: &mut GameState)
    requires
        old(state).players@.len() <= 255,
    ensures
        result_after(*old(state), *final(state)),
{
    if state.result.is_some() {
        return;
    }
    let ghost s0 = *state;
    let mut alive: u32 = 0;
    let mut first: u8 = 0;
    let mut p: usize = 0;
    while p < state.players.len()
        invariant
            *state == s0,
            s0.players@.len() <= 255,
            p <= s0.players@.len(),
            alive == count_where(s0.players@.take(p as int), alive_pred()),
            alive <= p,
            alive > 0 ==> first < p && !s0.players@[first as int].has_lost,
            alive == 1 ==> forall|q: int| 0 <= q < p && q != first ==> (#[trigger] s0.players@[q]).has_lost,
            alive == 0 ==> forall|q: int| 0 <= q < p ==> (#[trigger] s0.players@[q]).has_lost,
        decreases s0.players@.len() - p,
    {
        proof {
            assert(s0.players@.take(p + 1).drop_last() =~= s0.players@.take(p as int));
            assert(s0.players@.take(p + 1).last() == s0.players@[p as int]);
        }
        if !state.players[p].has_lost {
            if alive == 0 {
                first = p as u8;
            }
            alive = alive + 1;
        }
        p = p + 1;
    }
    proof {
        assert(s0.players@.take(p as int) =~= s0.players@);
    }
    if alive == 0 {
        state.result = Some(GameResult::Draw);
    } else if alive == 1 {
        state.result = Some(GameResult::Win(first));
        state.emit(GameEvent::PlayerWins { player: first });
        proof {
            assert(!s0.players@[first as int].has_lost);
        }
    }
}


// =============================================================================
// Entry point
// =============================================================================

/// Perform every pending state-based action, repeating until a pass
/// performs nothing (CR 704.3), then settle the game result. Returns the
/// number of passes that performed something. When the legend rule needs
/// its controller's decision the loop stops at once with
/// `pending_choice` set; no other action leaves a choice behind.
///
/// Every player who has not lost and has 0 or less life, drew from an
/// empty library or has ten or more poison counters loses, and the log
/// records why; a game not yet
/// decided is then a draw when nobody is left and a win for the only
/// player left, logged last. The log only grows, and every battlefield
/// object that is gone afterwards left by a zone change the log records
/// (to a graveyard, or to exile where a replacement says so); every other
/// one is still on the battlefield under its id. Once nothing is pending,
/// a creature that had to die is either gone that way or, regenerated,
/// no longer has to.
///
/// Needs room to give every battlefield object a new id.
pub fn apply_state_based_actions(state: &mut GameState) -> (iterations: u32)
    requires
        old(state).wf(),
        id_room(*old(state)),
    ensures
        final(state).wf(),
        final(state).pending_choice is None ==> !spec_has_pending(*final(state)),
        !spec_has_pending(*old(state)) && old(state).pending_choice is None ==> iterations == 0 && result_after(
            *old(state),
            *final(state),
        ),
        players_checked_or_kept(old(state).players@, final(state).players@),
        final(state).pending_choice is None ==> forall|p: int|
            0 <= p < old(state).players@.len() ==> #[trigger] final(state).players@[p] == after_loss_check(
                old(state).players@[p],
            ),
        old(state).result is Some ==> final(state).result == old(state).result,
        old(state).result is None ==> settled_result(final(state).players@, final(state).result),
        old(state).result is None ==> (final(state).result matches Some(GameResult::Win(w))
            ==> final(state).event_log@.last() == (GameEvent::PlayerWins { player: w })),
        final(state).pending_choice != old(state).pending_choice ==> (final(state).pending_choice matches Some(pc)
            && legend_choice(*final(state), pc)),
        sba_frame(*old(state), *final(state)),
        final(state).pending_choice is None ==> losses_logged(*old(state), *final(state)),
        final(state).pending_choice is None ==> forall|k: ObjectId|
            #![trigger old(state).objects@.contains_key(k)]
            old(state).objects@.contains_key(k) && creature_should_die(
                old(state).objects@[k],
                old(state).continuous_effects@,
            ) ==> if final(state).objects@.contains_key(k) {
                on_bf(final(state).objects@[k]) && !creature_should_die(
                    final(state).objects@[k],
                    final(state).continuous_effects@,
                )
            } else {
                move_logged(*final(state), k)
            },
{
    let ghost s0 = *state;
    let mut iterations: u32 = 0;
    proof {
        assert(s0.event_log@.take(s0.event_log@.len() as int) =~= s0.event_log@);
        assert forall|p: int|
            0 <= p < s0.players@.len() && should_lose(s0.players@[p]) && s0.players@[p] == after_loss_check(
                s0.players@[p],
            ) implies #[trigger] loss_logged(s0, s0.event_log@.len() as int, p, s0.players@[p]) by {
        }
    }
    loop
        invariant
            s0 == *old(state),
            sba_inv(*state),
            iterations == 0 ==> *state == s0,
            iterations > 0 ==> spec_has_pending(s0) || s0.pending_choice is Some,
            players_checked_or_kept(s0.players@, state.players@),
            state.result == s0.result,
            state.pending_choice == s0.pending_choice,
            sba_inv(s0),
            sba_frame(s0, *state),
            losses_logged(s0, *state),
        ensures
            sba_inv(*state),
            state.pending_choice is None,
            !spec_has_pending(*state),
            iterations == 0 ==> *state == s0,
            iterations > 0 ==> spec_has_pending(s0) || s0.pending_choice is Some,
        decreases measure(*state),
    {
        let ghost start = *state;
        let f1 = annihilate_pt_counters(state);
        let ghost a1 = *state;
        proof {
            assert forall|i: int| 0 <= i < start.objects.objs@.len() implies (#[trigger] a1.objects.objs@[i]).zone
                == start.objects.objs@[i].zone by {
                if annihilatable(start.objects.objs@[i]) {
                    assert(annihilated(start.objects.objs@[i], a1.objects.objs@[i]));
                }
            }
            assert(a1.event_log@.take(start.event_log@.len() as int) =~= start.event_log@);
            lemma_frame_in_place(start, a1);
            lemma_frame_trans(s0, start, a1);
        }
        let f2 = check_creature_graveyard(state);
        let ghost a2 = *state;
        proof {
            lemma_frame_trans(s0, a1, a2);
            lemma_frame_trans(start, a1, a2);
        }
        let f3 = move_selected_to_graveyard(state, ObjectCheck::PlaneswalkerDeath);
        let ghost a3 = *state;
        proof {
            lemma_frame_trans(s0, a2, a3);
            lemma_frame_trans(start, a2, a3);
        }
        let f4 = apply_legend_rule(state);
        proof {
            assert(a3.event_log@.take(a3.event_log@.len() as int) =~= a3.event_log@);
            lemma_frame_same(a3, *state);
            lemma_frame_trans(s0, a3, *state);
            lemma_frame_trans(start, a3, *state);
        }
        if state.pending_choice.is_some() {
            proof {
                // The legend rule only asks for a choice when there was work to do.
                assert(spec_has_pending(s0) || s0.pending_choice is Some) by {
                    if iterations == 0 && !spec_has_pending(s0) && s0.pending_choice is None {
                        assert(start == s0 && a1 == start && a2 == a1 && a3 == a2);
                        assert(!f4 && *state == a3);
                    }
                }
            }
            let ghost mid = *state;
            proof {
                assert(mid.players == start.players);
                assert(mid.result == s0.result);
                assert(mid.pending_choice != s0.pending_choice ==> f4);
            }
            iterations = iterations.saturating_add(1);
            update_game_result(state);
            proof {
                lemma_result_settles(mid, *state);
                assert(state.event_log@.take(mid.event_log@.len() as int) =~= mid.event_log@);
                lemma_frame_same(mid, *state);
                lemma_frame_trans(s0, mid, *state);
                if state.pending_choice != s0.pending_choice {
                    let pc = state.pending_choice->0;
                    assert(state.objects == a3.objects);
                    let (c, n) = choose|c: PlayerId, n: crate::types::SmallString|
                        #![trigger conflict_key(a3, c, n)]
                        conflict_key(a3, c, n) && (forall|c2: PlayerId, n2: crate::types::SmallString|
                            #[trigger] conflict_key(a3, c2, n2) ==> c < c2 || (c == c2 && n <= n2)) && (
                        mid.pending_choice matches Some(pc) && pc.choosing_player == c && pc.context
                            == ChoiceContext::Sba && (pc.kind matches ChoiceKind::PickCards { candidates, min, max }
                            && candidates@ == group_ids(a3.objects.objs@, c, n) && min == 1 && max == 1));
                    assert forall|c2: PlayerId, n2: crate::types::SmallString|
                        #[trigger] conflict_key(*state, c2, n2) implies c < c2 || (c == c2 && n <= n2) by {
                        assert(conflict_key(a3, c2, n2));
                    }
                    assert(conflict_key(*state, c, n));
                    assert(legend_choice(*state, pc));
                }
            }
            return iterations;
        }
        let ghost a4 = *state;
        proof {
            assert(a4.objects == a3.objects);
        }
        let f5 = check_token_ceases_to_exist(state);
        let ghost a5 = *state;
        proof {
            lemma_frame_tokens(a4, a5);
            lemma_frame_trans(s0, a4, a5);
            lemma_frame_trans(start, a4, a5);
        }
        let f6 = detach_selected(state, ObjectCheck::IllegalEquipment);
        let ghost a6 = *state;
        proof {
            lemma_frame_trans(s0, a5, a6);
            lemma_frame_trans(start, a5, a6);
        }
        let f7 = detach_selected(state, ObjectCheck::IllegalFortification);
        let ghost a7 = *state;
        proof {
            lemma_frame_trans(s0, a6, a7);
            lemma_frame_trans(start, a6, a7);
        }
        let f8 = move_selected_to_graveyard(state, ObjectCheck::IllegalAura);
        let ghost a8 = *state;
        proof {
            lemma_frame_trans(s0, a7, a8);
            lemma_frame_trans(start, a7, a8);
            lemma_losses_logged_frame(s0, start, a8);
        }
        let f9 = check_player_losses(state);
        proof {
            assert(state.event_log@.take(a8.event_log@.len() as int) =~= a8.event_log@);
            lemma_frame_same(a8, *state);
            lemma_frame_trans(s0, a8, *state);
            assert forall|p: int|
                0 <= p < s0.players@.len() && should_lose(s0.players@[p]) && state.players@[p] == after_loss_check(
                    s0.players@[p],
                ) implies #[trigger] loss_logged(*state, s0.event_log@.len() as int, p, s0.players@[p]) by {
                if a8.players@[p] == after_loss_check(s0.players@[p]) {
                    assert(loss_logged(a8, s0.event_log@.len() as int, p, s0.players@[p]));
                    let i = choose|i: int|
                        s0.event_log@.len() <= i < a8.event_log@.len() && a8.event_log@[i] == (GameEvent::PlayerLoses {
                            player: p as u8,
                            reason: loss_reason(s0.players@[p]),
                        });
                    assert(state.event_log@[i] == a8.event_log@[i]);
                } else {
                    assert(a8.players@[p] == s0.players@[p]);
                    lemma_loss_events_hold(a8.players@, a8.players@.len() as int, p);
                    let j = choose|j: int|
                        #![trigger loss_events(a8.players@, a8.players@.len() as int)[j]]
                        0 <= j < loss_events(a8.players@, a8.players@.len() as int).len() && loss_events(
                            a8.players@,
                            a8.players@.len() as int,
                        )[j] == (GameEvent::PlayerLoses { player: p as u8, reason: loss_reason(a8.players@[p]) });
                    assert(state.event_log@[a8.event_log@.len() + j] == loss_events(
                        a8.players@,
                        a8.players@.len() as int,
                    )[j]);
                }
            }
        }
        if !(f1 || f2 || f3 || f4 || f5 || f6 || f7 || f8 || f9) {
            proof {
                assert(*state == start);
                assert(!spec_pending_annihilation(start));
                assert(!spec_pending_creature_death(start));
                assert(!spec_pending_pw_death(start));
                assert(!spec_pending_legend(start));
                assert(!spec_pending_token(start));
                assert(!spec_pending_equipment(start));
                assert(!spec_pending_fortification(start));
                assert(!spec_pending_aura(start));
                assert(!spec_pending_player_loss(start));
            }
            break;
        }
        proof {
            assert(measure(*state) < measure(start));
            if iterations == 0 {
                assert(start == s0);
                if f1 {
                } else if f2 {
                    assert(a1 == start);
                } else if f3 {
                    assert(a2 == start);
                } else if f4 {
                    assert(a3 == start);
                } else if f5 {
                    assert(a4 == start);
                } else if f6 {
                    assert(a5 == start);
                } else if f7 {
                    assert(a6 == start);
                } else if f8 {
                    assert(a7 == start);
                } else {
                    assert(a8 == start);
                }
            }
        }
        iterations = iterations.saturating_add(1);
    }
    let ghost settled = *state;
    update_game_result(state);
    proof {
        lemma_result_settles(settled, *state);
        assert(state.event_log@.take(settled.event_log@.len() as int) =~= settled.event_log@);
        lemma_frame_same(settled, *state);
        lemma_frame_trans(s0, settled, *state);
        lemma_losses_logged_frame(s0, settled, *state);
        assert forall|p: int| 0 <= p < s0.players@.len() implies #[trigger] state.players@[p] == after_loss_check(
            s0.players@[p],
        ) by {
            assert(!should_lose(settled.players@[p]));
        }
        if state.pending_choice is None {
            assert forall|k: ObjectId|
                #![trigger s0.objects@.contains_key(k)]
                s0.objects@.contains_key(k) && creature_should_die(s0.objects@[k], s0.continuous_effects@)
                    implies if state.objects@.contains_key(k) {
                    on_bf(state.objects@[k]) && !creature_should_die(state.objects@[k], state.continuous_effects@)
                } else {
                    move_logged(*state, k)
                } by {
                if state.objects@.contains_key(k) {
                    state.objects.lemma_index(k);
                    let i = state.objects.index_of(k);
                    assert(state.objects.objs@[i] == state.objects@[k]);
                    if creature_should_die(state.objects@[k], state.continuous_effects@) {
                        assert(spec_pending_creature_death(*state));
                    }
                }
            }
            assert(state.objects == settled.objects);
            assert(state.players == settled.players);
            assert(state.continuous_effects == settled.continuous_effects);
        }
    }
    iterations
}

} // verus!
