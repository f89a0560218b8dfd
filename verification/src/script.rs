//! Read-only queries for card scripts: amounts computed at resolution
//! time ("damage equal to its power", "draw a card for each creature you
//! control") and id lists ("each Goblin").
//!
//! Every query takes the state by shared reference, returns a plain
//! value, and answers a missing object or an out-of-range player with
//! the neutral value (`0`, `false`, an empty list, or a given default).

use vstd::prelude::*;
use crate::counting::{count_where, lemma_count_mono, lemma_count_push, lemma_count_pos, lemma_count_witness};
use crate::events::GameEvent;
use crate::layers::{clamp_opt, spec_power_of, spec_toughness_of};
use crate::mana::ManaCostComponent;
use crate::objects::{GameObject, ObjectId};
use crate::registry::CardRegistry;
use crate::state::{BlockerInfo, GameState};
use crate::targets::ObjectFilter;
use crate::types::{ColorSet, CommodityToken, CounterKind, PlayerId, SmallString, StringInterner};
use crate::zones::Zone;

verus! {

// =============================================================================
// Filters by name
// =============================================================================

/// The predefined token spelled `s` ("Treasure", "Clue", ...).
pub open spec fn spec_commodity_by_name(s: Seq<char>) -> Option<CommodityToken> {
    if s == "Treasure"@ {
        Some(CommodityToken::Treasure)
    } else if s == "Clue"@ {
        Some(CommodityToken::Clue)
    } else if s == "Food"@ {
        Some(CommodityToken::Food)
    } else if s == "Powerstone"@ {
        Some(CommodityToken::Powerstone)
    } else if s == "Incubator"@ {
        Some(CommodityToken::Incubator)
    } else if s == "Blood"@ {
        Some(CommodityToken::Blood)
    } else if s == "Map"@ {
        Some(CommodityToken::MapToken)
    } else {
        None
    }
}

/// Map a predefined-token subtype name to its kind; `None` for any
/// other subtype.
pub fn commodity_kind_by_name(subtype: &str) -> (r: Option<CommodityToken>)
    ensures
        r == spec_commodity_by_name(subtype@),
{
    let s = subtype.to_owned();
    if s == "Treasure".to_owned() {
        Some(CommodityToken::Treasure)
    } else if s == "Clue".to_owned() {
        Some(CommodityToken::Clue)
    } else if s == "Food".to_owned() {
        Some(CommodityToken::Food)
    } else if s == "Powerstone".to_owned() {
        Some(CommodityToken::Powerstone)
    } else if s == "Incubator".to_owned() {
        Some(CommodityToken::Incubator)
    } else if s == "Blood".to_owned() {
        Some(CommodityToken::Blood)
    } else if s == "Map".to_owned() {
        Some(CommodityToken::MapToken)
    } else {
        None
    }
}

/// The filter [`subtype_filter`] builds: permanents of the predefined
/// token kind, or permanents with the interned subtype, or nothing when
/// the subtype was never interned.
pub open spec fn spec_subtype_filter(names: StringInterner, subtype: Seq<char>) -> ObjectFilter {
    let permanent = ObjectFilter { types: Some(crate::types::TypeLine(crate::types::TypeLine::PERMANENT_TYPES)), ..ObjectFilter::spec_any() };
    match spec_commodity_by_name(subtype) {
        Some(k) => ObjectFilter { commodity: Some(k), ..permanent },
        None => match names.spec_lookup(subtype) {
            Some(sym) => ObjectFilter { subtypes: Some(sym), ..permanent },
            None => ObjectFilter { matches_nothing: true, ..ObjectFilter::spec_any() },
        },
    }
}

/// Permanents with the subtype spelled `subtype` ("Goblin", "Mountain");
/// predefined tokens ("Treasure", "Food") by their kind. A subtype no
/// card was ever interned with gives a filter that matches nothing.
pub fn subtype_filter(reg: &CardRegistry, subtype: &str) -> (f: ObjectFilter)
    requires
        reg.wf(),
    ensures
        f == spec_subtype_filter(reg.names(), subtype@),
{
    if let Some(kind) = commodity_kind_by_name(subtype) {
        return ObjectFilter::permanent().commodity_kind(kind);
    }
    match reg.interner().lookup(subtype) {
        Some(sym) => ObjectFilter::permanent().with_subtype_sym(sym),
        None => ObjectFilter::nothing(),
    }
}

// =============================================================================
// Zones and filters
// =============================================================================

/// Does `p` name a player of the game?
pub open spec fn spec_valid(state: GameState, p: PlayerId) -> bool {
    p < state.players@.len()
}

fn valid(state: &GameState, p: PlayerId) -> (b: bool)
    ensures
        b == spec_valid(*state, p),
{
    (p as usize) < state.players.len()
}

/// Ids of the objects of `objs` in `zone` passing `f`, in order.
pub open spec fn matching_ids(
    objs: Seq<GameObject>,
    zone: Zone,
    f: ObjectFilter,
    state: GameState,
    you: PlayerId,
) -> Seq<ObjectId>
    decreases objs.len(),
{
    if objs.len() == 0 {
        Seq::empty()
    } else {
        let o = objs.last();
        matching_ids(objs.drop_last(), zone, f, state, you) + if o.zone == zone && f.spec_matches(
            o,
            state.continuous_effects@,
            you,
        ) {
            seq![o.id]
        } else {
            Seq::empty()
        }
    }
}

/// Ids in `zone` passing `f`, in arena order.
fn ids_in_zone_matching(state: &GameState, zone: Zone, filter: &ObjectFilter, you: PlayerId) -> (v: Vec<ObjectId>)
    ensures
        v@ == matching_ids(state.objects.objs@, zone, *filter, *state, you),
{
    let objs = &state.objects.objs;
    let mut v: Vec<ObjectId> = Vec::new();
    let mut i: usize = 0;
    while i < objs.len()
        invariant
            i <= objs@.len(),
            objs == &state.objects.objs,
            v@ == matching_ids(objs@.take(i as int), zone, *filter, *state, you),
        decreases objs@.len() - i,
    {
        proof {
            assert(objs@.take(i + 1).drop_last() =~= objs@.take(i as int));
        }
        let o = &objs[i];
        if o.zone == zone && filter.matches(o, state, you) {
            v.push(o.id);
        } else {
            proof {
                assert(v@ + Seq::<ObjectId>::empty() =~= v@);
            }
        }
        i = i + 1;
    }
    proof {
        assert(objs@.take(i as int) =~= objs@);
    }
    v
}

/// Battlefield permanents passing `filter`, with `you` as "you", in
/// arena order.
pub fn ids_matching(state: &GameState, filter: &ObjectFilter, you: PlayerId) -> (v: Vec<ObjectId>)
    ensures
        v@ == matching_ids(state.objects.objs@, Zone::Battlefield, *filter, *state, you),
{
    ids_in_zone_matching(state, Zone::Battlefield, filter, you)
}

/// Number of battlefield permanents passing `filter` (the count taken
/// modulo 2^32).
pub fn count_matching(state: &GameState, filter: &ObjectFilter, you: PlayerId) -> (n: u32)
    ensures
        n == matching_ids(state.objects.objs@, Zone::Battlefield, *filter, *state, you).len() as u32,
{
    let v = ids_in_zone_matching(state, Zone::Battlefield, filter, you);
    v.len() as u32
}

/// Cards in `player`'s graveyard passing `filter`; 0 for an invalid
/// player.
pub fn graveyard_matching(state: &GameState, filter: &ObjectFilter, player: PlayerId, you: PlayerId) -> (n: u32)
    ensures
        n == if spec_valid(*state, player) {
            matching_ids(state.objects.objs@, Zone::Graveyard(player), *filter, *state, you).len() as u32
        } else {
            0
        },
{
    if !valid(state, player) {
        return 0;
    }
    let v = ids_in_zone_matching(state, Zone::Graveyard(player), filter, you);
    v.len() as u32
}

/// Ids of the cards in `player`'s graveyard passing `filter`, in arena
/// order; empty for an invalid player.
pub fn graveyard_ids_matching(state: &GameState, filter: &ObjectFilter, player: PlayerId, you: PlayerId) -> (v: Vec<ObjectId>)
    ensures
        v@ == if spec_valid(*state, player) {
            matching_ids(state.objects.objs@, Zone::Graveyard(player), *filter, *state, you)
        } else {
            Seq::empty()
        },
{
    if !valid(state, player) {
        return Vec::new();
    }
    ids_in_zone_matching(state, Zone::Graveyard(player), filter, you)
}

/// Number of objects of `objs` in `zone`.
pub open spec fn zone_size(objs: Seq<GameObject>, zone: Zone) -> nat
    decreases objs.len(),
{
    if objs.len() == 0 {
        0
    } else {
        zone_size(objs.drop_last(), zone) + if objs.last().zone == zone {
            1nat
        } else {
            0nat
        }
    }
}

fn count_in(state: &GameState, zone: Zone) -> (n: usize)
    ensures
        n == zone_size(state.objects.objs@, zone),
{
    let objs = &state.objects.objs;
    let mut n: usize = 0;
    let mut i: usize = 0;
    while i < objs.len()
        invariant
            i <= objs@.len(),
            objs == &state.objects.objs,
            n == zone_size(objs@.take(i as int), zone),
            n <= i,
        decreases objs@.len() - i,
    {
        proof {
            assert(objs@.take(i + 1).drop_last() =~= objs@.take(i as int));
        }
        if objs[i].zone == zone {
            n = n + 1;
        }
        i = i + 1;
    }
    proof {
        assert(objs@.take(i as int) =~= objs@);
    }
    n
}

/// Cards in `player`'s hand (modulo 2^32); 0 for an invalid player.
pub fn hand_size(state: &GameState, player: PlayerId) -> (n: u32)
    ensures
        n == if spec_valid(*state, player) {
            zone_size(state.objects.objs@, Zone::Hand(player)) as u32
        } else {
            0
        },
{
    if !valid(state, player) {
        return 0;
    }
    count_in(state, Zone::Hand(player)) as u32
}

/// Cards in `player`'s graveyard (modulo 2^32); 0 for an invalid player.
pub fn graveyard_size(state: &GameState, player: PlayerId) -> (n: u32)
    ensures
        n == if spec_valid(*state, player) {
            zone_size(state.objects.objs@, Zone::Graveyard(player)) as u32
        } else {
            0
        },
{
    if !valid(state, player) {
        return 0;
    }
    count_in(state, Zone::Graveyard(player)) as u32
}

/// Cards in `player`'s library (modulo 2^32); 0 for an invalid player.
pub fn library_size(state: &GameState, player: PlayerId) -> (n: u32)
    ensures
        n == if spec_valid(*state, player) {
            state.players@[player as int].library_top_to_bottom@.len() as u32
        } else {
            0
        },
{
    if !valid(state, player) {
        return 0;
    }
    state.players[player as usize].library_top_to_bottom.len() as u32
}

/// `player`'s life total; 0 for an invalid player.
pub fn life(state: &GameState, player: PlayerId) -> (n: i32)
    ensures
        n == if spec_valid(*state, player) {
            state.players@[player as int].life
        } else {
            0
        },
{
    if !valid(state, player) {
        return 0;
    }
    state.players[player as usize].life
}

// =============================================================================
// Objects
// =============================================================================

/// `id`'s current power after continuous effects; 0 when it is gone or
/// has no power.
pub fn power_of(state: &GameState, id: ObjectId) -> (p: i32)
    requires
        state.objects.wf(),
    ensures
        p == if state.objects@.contains_key(id) {
            match clamp_opt(spec_power_of(state.objects@[id], state.continuous_effects@)) {
                Some(v) => v,
                None => 0,
            }
        } else {
            0
        },
{
    match state.computed_power(id) {
        Some(v) => v,
        None => 0,
    }
}

/// `id`'s current toughness after continuous effects; 0 when it is gone
/// or has no toughness.
pub fn toughness_of(state: &GameState, id: ObjectId) -> (t: i32)
    requires
        state.objects.wf(),
    ensures
        t == if state.objects@.contains_key(id) {
            match clamp_opt(spec_toughness_of(state.objects@[id], state.continuous_effects@)) {
                Some(v) => v,
                None => 0,
            }
        } else {
            0
        },
{
    match state.computed_toughness(id) {
        Some(v) => v,
        None => 0,
    }
}

/// Controller of `id`, or `default` when it is gone.
pub fn target_controller(state: &GameState, id: ObjectId, default: PlayerId) -> (p: PlayerId)
    requires
        state.objects.wf(),
    ensures
        p == if state.objects@.contains_key(id) {
            state.objects@[id].controller
        } else {
            default
        },
{
    match state.objects.get(id) {
        Some(o) => o.controller,
        None => default,
    }
}

/// Number of `kind` counters on `source`; 0 when it is gone.
pub fn source_counter_count(state: &GameState, source: ObjectId, kind: CounterKind) -> (n: u32)
    requires
        state.objects.wf(),
    ensures
        n == if state.objects@.contains_key(source) {
            state.objects@[source].counters.count(kind)
        } else {
            0
        },
{
    match state.objects.get(source) {
        Some(o) => o.count_counters(kind),
        None => 0,
    }
}

/// The interned name of `id`, or `None` when it is gone.
pub fn name_of(state: &GameState, id: ObjectId) -> (r: Option<SmallString>)
    requires
        state.objects.wf(),
    ensures
        r == if state.objects@.contains_key(id) {
            Some(state.objects@[id].characteristics.name)
        } else {
            None
        },
{
    match state.objects.get(id) {
        Some(o) => Some(o.characteristics.name),
        None => None,
    }
}

// =============================================================================
// Players
// =============================================================================

/// Every player, in turn order.
pub fn all_players(state: &GameState) -> (v: Vec<PlayerId>)
    requires
        state.players@.len() <= 255,
    ensures
        v@ == Seq::new(state.players@.len(), |i: int| i as u8),
{
    let n = state.num_players();
    let mut v: Vec<PlayerId> = Vec::new();
    let mut p: u8 = 0;
    while p < n
        invariant
            p <= n,
            v@ == Seq::new(p as nat, |i: int| i as u8),
        decreases n - p,
    {
        v.push(p);
        proof {
            assert(v@ =~= Seq::new((p + 1) as nat, |i: int| i as u8));
        }
        p = p + 1;
    }
    v
}

/// Every player but `you`, in turn order.
pub fn opponents(state: &GameState, you: PlayerId) -> (v: Vec<PlayerId>)
    requires
        state.players@.len() <= 255,
    ensures
        v@ == Seq::new(state.players@.len(), |i: int| i as u8).filter(|p: PlayerId| p != you),
{
    let n = state.num_players();
    let ghost all = Seq::new(n as nat, |i: int| i as u8);
    let ghost keep = |p: PlayerId| p != you;
    let mut v: Vec<PlayerId> = Vec::new();
    let mut p: u8 = 0;
    while p < n
        invariant
            p <= n,
            all == Seq::new(n as nat, |i: int| i as u8),
            keep == (|p: PlayerId| p != you),
            v@ == all.take(p as int).filter(keep),
        decreases n - p,
    {
        proof {
            assert(all.take(p + 1) =~= all.take(p as int).push(p));
            all.take(p as int).lemma_filter_push(p, keep);
        }
        if p != you {
            v.push(p);
        }
        p = p + 1;
    }
    proof {
        assert(all.take(p as int) =~= all);
    }
    v
}

// =============================================================================
// Combat
// =============================================================================

/// Creatures blocking `attacker` in declaration order; empty outside
/// combat or when it is not attacking.
pub open spec fn spec_blockers_of(state: GameState, attacker: ObjectId) -> Seq<ObjectId> {
    match state.combat {
        None => Seq::empty(),
        Some(c) => match c.first_attacker_index(attacker) {
            Some(i) => c.attackers@[i].blocked_by@,
            None => Seq::empty(),
        },
    }
}

/// Creatures currently blocking `attacker` (CR 509), in declaration order.
pub fn blockers_of(state: &GameState, attacker: ObjectId) -> (v: Vec<ObjectId>)
    ensures
        v@ == spec_blockers_of(*state, attacker),
{
    let mut v: Vec<ObjectId> = Vec::new();
    if let Some(c) = &state.combat {
        if let Some(a) = c.attacker(attacker) {
            let mut k: usize = 0;
            while k < a.blocked_by.len()
                invariant
                    k <= a.blocked_by@.len(),
                    v@ == a.blocked_by@.take(k as int),
                decreases a.blocked_by@.len() - k,
            {
                v.push(a.blocked_by[k]);
                proof {
                    assert(a.blocked_by@.take(k + 1) =~= a.blocked_by@.take(k as int).push(a.blocked_by@[k as int]));
                }
                k = k + 1;
            }
            proof {
                assert(a.blocked_by@.take(k as int) =~= a.blocked_by@);
            }
        }
    }
    v
}

/// The attackers `blocker` blocks, in declaration order.
pub open spec fn blocked_by_blocker(bs: Seq<BlockerInfo>, blocker: ObjectId) -> Seq<ObjectId>
    decreases bs.len(),
{
    if bs.len() == 0 {
        Seq::empty()
    } else {
        blocked_by_blocker(bs.drop_last(), blocker) + if bs.last().object_id == blocker {
            seq![bs.last().blocking]
        } else {
            Seq::empty()
        }
    }
}

/// Attackers that `blocker` is blocking; empty outside combat.
pub fn attackers_blocked_by(state: &GameState, blocker: ObjectId) -> (v: Vec<ObjectId>)
    ensures
        v@ == match state.combat {
            Some(c) => blocked_by_blocker(c.blockers@, blocker),
            None => Seq::empty(),
        },
{
    let mut v: Vec<ObjectId> = Vec::new();
    if let Some(c) = &state.combat {
        let bs = &c.blockers;
        let mut k: usize = 0;
        while k < bs.len()
            invariant
                k <= bs@.len(),
                v@ == blocked_by_blocker(bs@.take(k as int), blocker),
            decreases bs@.len() - k,
        {
            proof {
                assert(bs@.take(k + 1).drop_last() =~= bs@.take(k as int));
            }
            if bs[k].object_id == blocker {
                v.push(bs[k].blocking);
            } else {
                proof {
                    assert(v@ + Seq::<ObjectId>::empty() =~= v@);
                }
            }
            k = k + 1;
        }
        proof {
            assert(bs@.take(k as int) =~= bs@);
        }
    }
    v
}

// =============================================================================
// The event log
// =============================================================================

/// The events of the current turn.
pub open spec fn this_turn(state: GameState) -> Seq<GameEvent> {
    let len = state.event_log@.len();
    let start = if state.turn_event_log_start < len {
        state.turn_event_log_start as int
    } else {
        len as int
    };
    state.event_log@.subrange(start, len as int)
}

/// The events of the turn before the current one.
pub open spec fn last_turn(state: GameState) -> Seq<GameEvent> {
    let len = state.event_log@.len();
    let start = if state.prev_turn_event_log_start < len {
        state.prev_turn_event_log_start as int
    } else {
        len as int
    };
    let end = if state.turn_event_log_start < len {
        state.turn_event_log_start as int
    } else {
        len as int
    };
    if start > end {
        Seq::empty()
    } else {
        state.event_log@.subrange(start, end)
    }
}

/// `id` as it is now, or as it last was (CR 608.2h) when it left its
/// zone.
pub open spec fn spec_live_or_lki(state: GameState, id: ObjectId) -> Option<GameObject> {
    if state.objects@.contains_key(id) {
        Some(state.objects@[id])
    } else if state.lki@.contains_key(id) {
        Some(state.lki@[id])
    } else {
        None
    }
}

fn live_or_lki(state: &GameState, id: ObjectId) -> (r: Option<&GameObject>)
    requires
        state.objects.wf(),
    ensures
        r is Some == spec_live_or_lki(*state, id) is Some,
        r matches Some(o) ==> *o == spec_live_or_lki(*state, id)->0,
{
    broadcast use vstd::std_specs::hash::group_hash_axioms;
    match state.objects.get(id) {
        Some(o) => Some(o),
        None => state.lki.get(&id),
    }
}

/// A question asked of one logged event.
#[derive(Clone, Copy, Debug)]
pub enum EventQuery {
    /// A creature with this subtype died.
    DiesWithSubtype(SmallString),
    /// A spell passing the filter was cast (second field: "you").
    SpellMatching(ObjectFilter, PlayerId),
    /// This player cast a spell passing the filter, with that player as
    /// "you".
    SpellByMatching(ObjectFilter, PlayerId),
    /// This player cast a spell.
    SpellBy(PlayerId),
    /// A spell was cast.
    AnySpell,
    /// This player drew a card.
    DrawBy(PlayerId),
    /// This player discarded a card.
    DiscardBy(PlayerId),
    /// This creature attacked.
    AttackBy(ObjectId),
    /// A creature of this player attacked.
    AttackByPlayer(PlayerId),
    /// Something died.
    Dies,
    /// Something this player controlled died.
    DiesControlledBy(PlayerId),
    /// This object entered the battlefield.
    Entered(ObjectId),
    /// A permanent passing the filter entered (second field: "you").
    EnteredMatching(ObjectFilter, PlayerId),
}

/// Does event `e` answer `q` (objects looked up live, then in LKI)?
pub open spec fn spec_event_is(state: GameState, q: EventQuery, e: GameEvent) -> bool {
    match (q, e) {
        (EventQuery::DiesWithSubtype(sym), GameEvent::Dies { object_id }) => match spec_live_or_lki(state, object_id) {
            Some(o) => o.characteristics.subtypes.0@.contains(sym),
            None => false,
        },
        (EventQuery::SpellMatching(f, you), GameEvent::SpellCast { object_id, .. }) => match spec_live_or_lki(
            state,
            object_id,
        ) {
            Some(o) => f.spec_matches(o, state.continuous_effects@, you),
            None => false,
        },
        (EventQuery::SpellByMatching(f, caster), GameEvent::SpellCast { object_id, controller }) => controller
            == caster && match spec_live_or_lki(state, object_id) {
            Some(o) => f.spec_matches(o, state.continuous_effects@, caster),
            None => false,
        },
        (EventQuery::SpellBy(p), GameEvent::SpellCast { controller, .. }) => controller == p,
        (EventQuery::AnySpell, GameEvent::SpellCast { .. }) => true,
        (EventQuery::DrawBy(p), GameEvent::DrawCard { player, .. }) => player == p,
        (EventQuery::DiscardBy(p), GameEvent::Discarded { player, .. }) => player == p,
        (EventQuery::AttackBy(id), GameEvent::CreatureAttacks { attacker, .. }) => attacker == id,
        (EventQuery::AttackByPlayer(p), GameEvent::CreatureAttacks { attacker, .. }) => match spec_live_or_lki(
            state,
            attacker,
        ) {
            Some(o) => o.controller == p,
            None => false,
        },
        (EventQuery::Dies, GameEvent::Dies { .. }) => true,
        (EventQuery::DiesControlledBy(p), GameEvent::Dies { object_id }) => match spec_live_or_lki(state, object_id) {
            Some(o) => o.controller == p,
            None => false,
        },
        (EventQuery::Entered(id), GameEvent::EntersBattlefield { object_id, .. }) => object_id == id,
        (EventQuery::EnteredMatching(f, you), GameEvent::EntersBattlefield { object_id, .. }) => match spec_live_or_lki(
            state,
            object_id,
        ) {
            Some(o) => f.spec_matches(o, state.continuous_effects@, you),
            None => false,
        },
        _ => false,
    }
}

/// [`spec_event_is`] as a predicate on events.
pub open spec fn event_is(state: GameState, q: EventQuery) -> spec_fn(GameEvent) -> bool {
    |e: GameEvent| spec_event_is(state, q, e)
}

fn check_event(state: &GameState, q: &EventQuery, e: &GameEvent) -> (b: bool)
    requires
        state.objects.wf(),
    ensures
        b == spec_event_is(*state, *q, *e),
{
    match (q, e) {
        (EventQuery::DiesWithSubtype(sym), GameEvent::Dies { object_id }) => match live_or_lki(state, *object_id) {
            Some(o) => o.characteristics.subtypes.contains(*sym),
            None => false,
        },
        (EventQuery::SpellMatching(f, you), GameEvent::SpellCast { object_id, .. }) => match live_or_lki(
            state,
            *object_id,
        ) {
            Some(o) => f.matches(o, state, *you),
            None => false,
        },
        (EventQuery::SpellByMatching(f, caster), GameEvent::SpellCast { object_id, controller }) => {
            if *controller != *caster {
                false
            } else {
                match live_or_lki(state, *object_id) {
                    Some(o) => f.matches(o, state, *caster),
                    None => false,
                }
            }
        },
        (EventQuery::SpellBy(p), GameEvent::SpellCast { controller, .. }) => *controller == *p,
        (EventQuery::AnySpell, GameEvent::SpellCast { .. }) => true,
        (EventQuery::DrawBy(p), GameEvent::DrawCard { player, .. }) => *player == *p,
        (EventQuery::DiscardBy(p), GameEvent::Discarded { player, .. }) => *player == *p,
        (EventQuery::AttackBy(id), GameEvent::CreatureAttacks { attacker, .. }) => *attacker == *id,
        (EventQuery::AttackByPlayer(p), GameEvent::CreatureAttacks { attacker, .. }) => match live_or_lki(
            state,
            *attacker,
        ) {
            Some(o) => o.controller == *p,
            None => false,
        },
        (EventQuery::Dies, GameEvent::Dies { .. }) => true,
        (EventQuery::DiesControlledBy(p), GameEvent::Dies { object_id }) => match live_or_lki(state, *object_id) {
            Some(o) => o.controller == *p,
            None => false,
        },
        (EventQuery::Entered(id), GameEvent::EntersBattlefield { object_id, .. }) => *object_id == *id,
        (EventQuery::EnteredMatching(f, you), GameEvent::EntersBattlefield { object_id, .. }) => match live_or_lki(
            state,
            *object_id,
        ) {
            Some(o) => f.matches(o, state, *you),
            None => false,
        },
        _ => false,
    }
}

/// Number of events in `event_log[lo..hi]` answering `q`.
fn count_events(state: &GameState, lo: usize, hi: usize, q: &EventQuery) -> (n: usize)
    requires
        state.objects.wf(),
        lo <= hi <= state.event_log@.len(),
    ensures
        n == count_where(state.event_log@.subrange(lo as int, hi as int), event_is(*state, *q)),
{
    let ghost p = event_is(*state, *q);
    let mut n: usize = 0;
    let mut i: usize = lo;
    while i < hi
        invariant
            state.objects.wf(),
            lo <= i <= hi <= state.event_log@.len(),
            p == event_is(*state, *q),
            n == count_where(state.event_log@.subrange(lo as int, i as int), p),
            n <= i - lo,
        decreases hi - i,
    {
        proof {
            let s = state.event_log@.subrange(lo as int, i as int);
            assert(state.event_log@.subrange(lo as int, i + 1) =~= s.push(state.event_log@[i as int]));
            lemma_count_push(s, state.event_log@[i as int], p);
        }
        if check_event(state, q, &state.event_log[i]) {
            n = n + 1;
        }
        i = i + 1;
    }
    n
}

/// Start of the current turn's events.
fn this_turn_start(state: &GameState) -> (lo: usize)
    ensures
        lo <= state.event_log@.len(),
        this_turn(*state) == state.event_log@.subrange(lo as int, state.event_log@.len() as int),
{
    if state.turn_event_log_start < state.event_log.len() {
        state.turn_event_log_start
    } else {
        state.event_log.len()
    }
}

/// Number of current-turn events answering `q`.
fn count_this_turn(state: &GameState, q: &EventQuery) -> (n: usize)
    requires
        state.objects.wf(),
    ensures
        n == count_where(this_turn(*state), event_is(*state, *q)),
{
    let lo = this_turn_start(state);
    count_events(state, lo, state.event_log.len(), q)
}

/// Bounds of the previous turn's events.
fn last_turn_bounds(state: &GameState) -> (r: (usize, usize))
    ensures
        r.0 <= r.1 <= state.event_log@.len(),
        last_turn(*state) == state.event_log@.subrange(r.0 as int, r.1 as int),
{
    let len = state.event_log.len();
    let start = if state.prev_turn_event_log_start < len {
        state.prev_turn_event_log_start
    } else {
        len
    };
    let end = if state.turn_event_log_start < len {
        state.turn_event_log_start
    } else {
        len
    };
    if start > end {
        proof {
            assert(state.event_log@.subrange(end as int, end as int) =~= Seq::<GameEvent>::empty());
        }
        (end, end)
    } else {
        (start, end)
    }
}

/// Number of current-turn events answering `q`.
pub open spec fn this_turn_count(state: GameState, q: EventQuery) -> nat {
    count_where(this_turn(state), event_is(state, q))
}

/// Number of creatures with the subtype spelled `subtype` that died this
/// turn, read from their last known information; 0 when the subtype was
/// never interned.
pub fn creatures_of_subtype_died_this_turn(state: &GameState, reg: &CardRegistry, subtype: &str) -> (n: u32)
    requires
        state.objects.wf(),
        reg.wf(),
        reg.names().spec_lookup(subtype@) matches Some(sym) ==> this_turn_count(
            *state,
            EventQuery::DiesWithSubtype(sym),
        ) <= u32::MAX,
    ensures
        n == match reg.names().spec_lookup(subtype@) {
            Some(sym) => this_turn_count(*state, EventQuery::DiesWithSubtype(sym)),
            None => 0,
        },
{
    match reg.interner().lookup(subtype) {
        Some(sym) => count_this_turn(state, &EventQuery::DiesWithSubtype(sym)) as u32,
        None => 0,
    }
}

/// Number of spells cast this turn passing `filter`, with `you` as "you".
pub fn spells_cast_this_turn(state: &GameState, filter: &ObjectFilter, you: PlayerId) -> (n: u32)
    requires
        state.objects.wf(),
        this_turn_count(*state, EventQuery::SpellMatching(*filter, you)) <= u32::MAX,
    ensures
        n == this_turn_count(*state, EventQuery::SpellMatching(*filter, you)),
{
    count_this_turn(state, &EventQuery::SpellMatching(*filter, you)) as u32
}

/// Number of spells passing `filter` that `caster` cast this turn.
pub fn spells_cast_this_turn_by(state: &GameState, filter: &ObjectFilter, caster: PlayerId) -> (n: u32)
    requires
        state.objects.wf(),
        this_turn_count(*state, EventQuery::SpellByMatching(*filter, caster)) <= u32::MAX,
    ensures
        n == this_turn_count(*state, EventQuery::SpellByMatching(*filter, caster)),
{
    count_this_turn(state, &EventQuery::SpellByMatching(*filter, caster)) as u32
}

/// Cards `player` drew this turn (modulo 2^32); 0 for an invalid player.
pub fn cards_drawn_this_turn(state: &GameState, player: PlayerId) -> (n: u32)
    requires
        state.objects.wf(),
    ensures
        n == if spec_valid(*state, player) {
            this_turn_count(*state, EventQuery::DrawBy(player)) as u32
        } else {
            0
        },
{
    if !valid(state, player) {
        return 0;
    }
    count_this_turn(state, &EventQuery::DrawBy(player)) as u32
}

/// Cards `player` discarded this turn (modulo 2^32); 0 for an invalid
/// player.
pub fn cards_discarded_this_turn(state: &GameState, player: PlayerId) -> (n: u32)
    requires
        state.objects.wf(),
    ensures
        n == if spec_valid(*state, player) {
            this_turn_count(*state, EventQuery::DiscardBy(player)) as u32
        } else {
            0
        },
{
    if !valid(state, player) {
        return 0;
    }
    count_this_turn(state, &EventQuery::DiscardBy(player)) as u32
}

/// Did `id` attack this turn?
pub fn creature_attacked_this_turn(state: &GameState, id: ObjectId) -> (b: bool)
    requires
        state.objects.wf(),
    ensures
        b == exists|i: int| 0 <= i < this_turn(*state).len() && spec_event_is(
            *state,
            EventQuery::AttackBy(id),
            #[trigger] this_turn(*state)[i],
        ),
{
    let n = count_this_turn(state, &EventQuery::AttackBy(id));
    proof {
        lemma_any_iff_count(this_turn(*state), *state, EventQuery::AttackBy(id));
    }
    n > 0
}

/// Did a creature `player` controls (now, or when it left) attack this
/// turn?
pub fn player_attacked_this_turn(state: &GameState, player: PlayerId) -> (b: bool)
    requires
        state.objects.wf(),
    ensures
        b == exists|i: int| 0 <= i < this_turn(*state).len() && spec_event_is(
            *state,
            EventQuery::AttackByPlayer(player),
            #[trigger] this_turn(*state)[i],
        ),
{
    let n = count_this_turn(state, &EventQuery::AttackByPlayer(player));
    proof {
        lemma_any_iff_count(this_turn(*state), *state, EventQuery::AttackByPlayer(player));
    }
    n > 0
}

/// Did `id` enter the battlefield this turn?
pub fn entered_battlefield_this_turn(state: &GameState, id: ObjectId) -> (b: bool)
    requires
        state.objects.wf(),
    ensures
        b == exists|i: int| 0 <= i < this_turn(*state).len() && spec_event_is(
            *state,
            EventQuery::Entered(id),
            #[trigger] this_turn(*state)[i],
        ),
{
    let n = count_this_turn(state, &EventQuery::Entered(id));
    proof {
        lemma_any_iff_count(this_turn(*state), *state, EventQuery::Entered(id));
    }
    n > 0
}

/// Some event answers `q` exactly when their count is positive.
proof fn lemma_any_iff_count(evs: Seq<GameEvent>, state: GameState, q: EventQuery)
    ensures
        (count_where(evs, event_is(state, q)) > 0) == exists|i: int| 0 <= i < evs.len() && spec_event_is(
            state,
            q,
            #[trigger] evs[i],
        ),
{
    let p = event_is(state, q);
    if count_where(evs, p) > 0 {
        lemma_count_pos(evs, p);
        let i = choose|i: int| 0 <= i < evs.len() && p(evs[i]);
        assert(spec_event_is(state, q, evs[i]));
    }
    if exists|i: int| 0 <= i < evs.len() && spec_event_is(state, q, #[trigger] evs[i]) {
        let i = choose|i: int| 0 <= i < evs.len() && spec_event_is(state, q, #[trigger] evs[i]);
        lemma_count_witness(evs, p, i);
    }
}

/// Creatures and planeswalkers that died this turn, any controller
/// (modulo 2^32).
pub fn creatures_died_this_turn(state: &GameState) -> (n: u32)
    requires
        state.objects.wf(),
    ensures
        n == this_turn_count(*state, EventQuery::Dies) as u32,
{
    count_this_turn(state, &EventQuery::Dies) as u32
}

/// Creatures and planeswalkers that died this turn under `player`'s
/// control (modulo 2^32); 0 for an invalid player.
pub fn creatures_died_this_turn_controlled_by(state: &GameState, player: PlayerId) -> (n: u32)
    requires
        state.objects.wf(),
    ensures
        n == if spec_valid(*state, player) {
            this_turn_count(*state, EventQuery::DiesControlledBy(player)) as u32
        } else {
            0
        },
{
    if !valid(state, player) {
        return 0;
    }
    count_this_turn(state, &EventQuery::DiesControlledBy(player)) as u32
}

/// Permanents passing `filter` (with `you` as "you") that entered the
/// battlefield this turn, read from their last known information when
/// they have left since.
pub fn entered_this_turn_matching(state: &GameState, filter: &ObjectFilter, you: PlayerId) -> (n: u32)
    requires
        state.objects.wf(),
        this_turn_count(*state, EventQuery::EnteredMatching(*filter, you)) <= u32::MAX,
    ensures
        n == this_turn_count(*state, EventQuery::EnteredMatching(*filter, you)),
{
    count_this_turn(state, &EventQuery::EnteredMatching(*filter, you)) as u32
}

/// Spells cast last turn by all players (modulo 2^32).
pub fn spells_cast_last_turn_total(state: &GameState) -> (n: u32)
    requires
        state.objects.wf(),
    ensures
        n == count_where(last_turn(*state), event_is(*state, EventQuery::AnySpell)) as u32,
{
    let (lo, hi) = last_turn_bounds(state);
    count_events(state, lo, hi, &EventQuery::AnySpell) as u32
}

/// Spells `p` cast last turn.
pub open spec fn last_turn_spells_by(state: GameState, p: PlayerId) -> nat {
    count_where(last_turn(state), event_is(state, EventQuery::SpellBy(p)))
}

/// The most spells cast last turn by players `0..k`.
pub open spec fn max_spells_below(state: GameState, k: int) -> nat
    decreases k,
{
    if k <= 0 {
        0
    } else {
        let rest = max_spells_below(state, k - 1);
        let here = last_turn_spells_by(state, (k - 1) as u8);
        if here > rest {
            here
        } else {
            rest
        }
    }
}

/// The most spells any one player cast last turn.
pub fn max_spells_by_a_player_last_turn(state: &GameState) -> (n: u32)
    requires
        state.objects.wf(),
        forall|p: PlayerId| #[trigger] last_turn_spells_by(*state, p) <= u32::MAX,
    ensures
        n == max_spells_below(*state, 256),
{
    let (lo, hi) = last_turn_bounds(state);
    let mut best: u32 = 0;
    let mut p: u16 = 0;
    while p < 256
        invariant
            state.objects.wf(),
            lo <= hi <= state.event_log@.len(),
            last_turn(*state) == state.event_log@.subrange(lo as int, hi as int),
            forall|q: PlayerId| #[trigger] last_turn_spells_by(*state, q) <= u32::MAX,
            p <= 256,
            best == max_spells_below(*state, p as int),
        decreases 256 - p,
    {
        let c = count_events(state, lo, hi, &EventQuery::SpellBy(p as u8));
        proof {
            assert(c == last_turn_spells_by(*state, p as u8));
        }
        if c as u32 > best {
            best = c as u32;
        }
        p = p + 1;
    }
    best
}

/// Total life `player` lost (`gained`: gained) over `evs`.
pub open spec fn life_total_change(evs: Seq<GameEvent>, player: PlayerId, gained: bool) -> nat
    decreases evs.len(),
{
    if evs.len() == 0 {
        0
    } else {
        life_total_change(evs.drop_last(), player, gained) + match evs.last() {
            GameEvent::LifeLost { player: p, amount } => if !gained && p == player {
                amount as nat
            } else {
                0nat
            },
            GameEvent::LifeGained { player: p, amount } => if gained && p == player {
                amount as nat
            } else {
                0nat
            },
            _ => 0nat,
        }
    }
}

fn life_change_this_turn(state: &GameState, player: PlayerId, gained: bool) -> (n: u32)
    requires
        life_total_change(this_turn(*state), player, gained) <= u32::MAX,
    ensures
        n == life_total_change(this_turn(*state), player, gained),
{
    let lo = this_turn_start(state);
    let hi = state.event_log.len();
    let mut n: u32 = 0;
    let mut i: usize = lo;
    while i < hi
        invariant
            lo <= i <= hi == state.event_log@.len(),
            this_turn(*state) == state.event_log@.subrange(lo as int, hi as int),
            life_total_change(this_turn(*state), player, gained) <= u32::MAX,
            n == life_total_change(state.event_log@.subrange(lo as int, i as int), player, gained),
        decreases hi - i,
    {
        proof {
            let s = state.event_log@.subrange(lo as int, i as int);
            assert(state.event_log@.subrange(lo as int, i + 1).drop_last() =~= s);
            lemma_life_change_prefix(state.event_log@.subrange(lo as int, hi as int), i + 1 - lo, player, gained);
            assert(state.event_log@.subrange(lo as int, hi as int).take(i + 1 - lo) =~= state.event_log@.subrange(
                lo as int,
                i + 1,
            ));
        }
        match state.event_log[i] {
            GameEvent::LifeLost { player: p, amount } => {
                if !gained && p == player {
                    n = n + amount;
                }
            },
            GameEvent::LifeGained { player: p, amount } => {
                if gained && p == player {
                    n = n + amount;
                }
            },
            _ => {},
        }
        i = i + 1;
    }
    proof {
        assert(state.event_log@.subrange(lo as int, i as int) =~= this_turn(*state));
    }
    n
}

/// A prefix changes life by no more than the whole.
proof fn lemma_life_change_prefix(evs: Seq<GameEvent>, k: int, player: PlayerId, gained: bool)
    requires
        0 <= k <= evs.len(),
    ensures
        life_total_change(evs.take(k), player, gained) <= life_total_change(evs, player, gained),
    decreases evs.len(),
{
    if k < evs.len() {
        assert(evs.drop_last().take(k) =~= evs.take(k));
        lemma_life_change_prefix(evs.drop_last(), k, player, gained);
    } else {
        assert(evs.take(k) =~= evs);
    }
}

/// Total life `player` lost this turn (from damage or effects); 0 for an
/// invalid player.
pub fn life_lost_this_turn(state: &GameState, player: PlayerId) -> (n: u32)
    requires
        life_total_change(this_turn(*state), player, false) <= u32::MAX,
    ensures
        n == if spec_valid(*state, player) {
            life_total_change(this_turn(*state), player, false)
        } else {
            0
        },
{
    if !valid(state, player) {
        return 0;
    }
    life_change_this_turn(state, player, false)
}

/// Total life `player` gained this turn; 0 for an invalid player.
pub fn life_gained_this_turn(state: &GameState, player: PlayerId) -> (n: u32)
    requires
        life_total_change(this_turn(*state), player, true) <= u32::MAX,
    ensures
        n == if spec_valid(*state, player) {
            life_total_change(this_turn(*state), player, true)
        } else {
            0
        },
{
    if !valid(state, player) {
        return 0;
    }
    life_change_this_turn(state, player, true)
}

// =============================================================================
// Domain, devotion, card types, maxima
// =============================================================================

/// `o` is a land on the battlefield, controlled by `you`, with subtype
/// `sym`.
pub open spec fn land_with_type(o: GameObject, you: PlayerId, sym: SmallString) -> bool {
    &&& o.zone == Zone::Battlefield
    &&& o.controller == you
    &&& o.characteristics.types.has_bits(crate::types::TypeLine::LAND)
    &&& o.characteristics.subtypes.0@.contains(sym)
}

/// 1 when the basic land type spelled `t` is interned and among the
/// lands `you` control, else 0.
pub open spec fn basic_type_present(state: GameState, you: PlayerId, names: StringInterner, t: Seq<char>) -> nat {
    match names.spec_lookup(t) {
        Some(sym) => if controls_land_type(state, you, sym) {
            1
        } else {
            0
        },
        None => 0,
    }
}

/// `you` controls a land with subtype `sym`.
pub open spec fn controls_land_type(state: GameState, you: PlayerId, sym: SmallString) -> bool {
    exists|i: int| 0 <= i < state.objects.objs@.len() && #[trigger] land_with_type(state.objects.objs@[i], you, sym)
}

/// Domain (CR 702.27): basic land types among lands `you` control.
pub open spec fn spec_domain(state: GameState, you: PlayerId, names: StringInterner) -> nat {
    if !spec_valid(state, you) {
        0
    } else {
        basic_type_present(state, you, names, "Plains"@) + basic_type_present(state, you, names, "Island"@)
            + basic_type_present(state, you, names, "Swamp"@) + basic_type_present(state, you, names, "Mountain"@)
            + basic_type_present(state, you, names, "Forest"@)
    }
}

/// The five basic land types (CR 205.3i).
pub open spec fn basic_land_types() -> Seq<Seq<char>> {
    seq!["Plains"@, "Island"@, "Swamp"@, "Mountain"@, "Forest"@]
}

/// `you` controls a land whose subtypes include the type spelled `t`.
pub open spec fn holds_land_type(state: GameState, you: PlayerId, names: StringInterner, t: Seq<char>) -> bool {
    exists|i: int|
        0 <= i < state.objects.objs@.len() && names.spec_lookup(t) is Some && (#[trigger] state.objects.objs@[i]).zone
            == Zone::Battlefield && state.objects.objs@[i].controller == you
            && state.objects.objs@[i].characteristics.types.has_bits(crate::types::TypeLine::LAND)
            && state.objects.objs@[i].characteristics.subtypes.0@.contains(names.spec_lookup(t)->0)
}

/// How many of the types `ts` are among the lands `you` control.
pub open spec fn types_held(state: GameState, you: PlayerId, names: StringInterner, ts: Seq<Seq<char>>) -> nat
    decreases ts.len(),
{
    if ts.len() == 0 {
        0
    } else {
        types_held(state, you, names, ts.drop_last()) + if holds_land_type(state, you, names, ts.last()) {
            1nat
        } else {
            0nat
        }
    }
}

proof fn lemma_type_present_iff_held(state: GameState, you: PlayerId, names: StringInterner, t: Seq<char>)
    ensures
        basic_type_present(state, you, names, t) == if holds_land_type(state, you, names, t) {
            1nat
        } else {
            0nat
        },
{
    match names.spec_lookup(t) {
        Some(sym) => {
            if holds_land_type(state, you, names, t) {
                let i = choose|i: int|
                    0 <= i < state.objects.objs@.len() && names.spec_lookup(t) is Some && (#[trigger] state.objects.objs@[i]).zone
                        == Zone::Battlefield && state.objects.objs@[i].controller == you
                        && state.objects.objs@[i].characteristics.types.has_bits(crate::types::TypeLine::LAND)
                        && state.objects.objs@[i].characteristics.subtypes.0@.contains(names.spec_lookup(t)->0);
                assert(land_with_type(state.objects.objs@[i], you, sym));
            }
            if controls_land_type(state, you, sym) {
                let i = choose|i: int| 0 <= i < state.objects.objs@.len() && #[trigger] land_with_type(
                    state.objects.objs@[i],
                    you,
                    sym,
                );
                assert(state.objects.objs@[i].zone == Zone::Battlefield);
            }
        },
        None => {},
    }
}

/// Domain counts the basic land types — Plains, Island, Swamp, Mountain and
/// Forest — for which `you` controls a land of that type, each once.
pub proof fn law_domain_counts_basic_land_types(state: GameState, you: PlayerId, names: StringInterner)
    requires
        spec_valid(state, you),
    ensures
        spec_domain(state, you, names) == types_held(state, you, names, basic_land_types()),
        spec_domain(state, you, names) <= 5,
{
    let ts = basic_land_types();
    lemma_type_present_iff_held(state, you, names, "Plains"@);
    lemma_type_present_iff_held(state, you, names, "Island"@);
    lemma_type_present_iff_held(state, you, names, "Swamp"@);
    lemma_type_present_iff_held(state, you, names, "Mountain"@);
    lemma_type_present_iff_held(state, you, names, "Forest"@);
    assert(ts.drop_last().drop_last().drop_last().drop_last().drop_last() =~= Seq::<Seq<char>>::empty());
    assert(ts.drop_last().drop_last().drop_last().drop_last() =~= seq!["Plains"@]);
    assert(ts.drop_last().drop_last().drop_last() =~= seq!["Plains"@, "Island"@]);
    assert(ts.drop_last().drop_last() =~= seq!["Plains"@, "Island"@, "Swamp"@]);
    assert(ts.drop_last() =~= seq!["Plains"@, "Island"@, "Swamp"@, "Mountain"@]);
    let h = |t: Seq<char>| if holds_land_type(state, you, names, t) {
        1nat
    } else {
        0nat
    };
    let t0 = ts.drop_last().drop_last().drop_last().drop_last().drop_last();
    let t1 = ts.drop_last().drop_last().drop_last().drop_last();
    let t2 = ts.drop_last().drop_last().drop_last();
    let t3 = ts.drop_last().drop_last();
    let t4 = ts.drop_last();
    assert(types_held(state, you, names, t0) == 0);
    assert(types_held(state, you, names, t1) == h("Plains"@));
    assert(types_held(state, you, names, t2) == h("Plains"@) + h("Island"@));
    assert(types_held(state, you, names, t3) == h("Plains"@) + h("Island"@) + h("Swamp"@));
    assert(types_held(state, you, names, t4) == h("Plains"@) + h("Island"@) + h("Swamp"@) + h("Mountain"@));
    assert(types_held(state, you, names, ts) == h("Plains"@) + h("Island"@) + h("Swamp"@) + h("Mountain"@) + h(
        "Forest"@,
    ));
}

fn type_present(state: &GameState, you: PlayerId, names: &StringInterner, t: &str) -> (n: u32)
    requires
        names.wf(),
    ensures
        n == basic_type_present(*state, you, *names, t@),
{
    match names.lookup(t) {
        None => 0,
        Some(sym) => {
            let objs = &state.objects.objs;
            let mut i: usize = 0;
            while i < objs.len()
                invariant
                    i <= objs@.len(),
                    objs == &state.objects.objs,
                    names.spec_lookup(t@) == Some(sym),
                    forall|k: int| 0 <= k < i ==> !land_with_type(#[trigger] objs@[k], you, sym),
                decreases objs@.len() - i,
            {
                let o = &objs[i];
                if o.controller == you && o.zone == Zone::Battlefield && o.is_land()
                    && o.characteristics.subtypes.contains(sym) {
                    proof {
                        let w = state.objects.objs@[i as int];
                        assert(w.zone == Zone::Battlefield);
                        assert(w.controller == you);
                        assert(w.characteristics.types.has_bits(crate::types::TypeLine::LAND));
                        assert(w.characteristics.subtypes.0@.contains(sym));
                        assert(land_with_type(w, you, sym));
                        assert(controls_land_type(*state, you, sym));
                    }
                    return 1;
                }
                i = i + 1;
            }
            0
        },
    }
}

/// Domain (CR 702.27): how many of the five basic land types are among
/// the lands `you` control, each counted once; 0 for an invalid player.
pub fn domain(state: &GameState, you: PlayerId, reg: &CardRegistry) -> (n: u32)
    requires
        reg.wf(),
    ensures
        n == spec_domain(*state, you, reg.names()),
{
    if !valid(state, you) {
        return 0;
    }
    let names = reg.interner();
    type_present(state, you, names, "Plains") + type_present(state, you, names, "Island") + type_present(
        state,
        you,
        names,
        "Swamp",
    ) + type_present(state, you, names, "Mountain") + type_present(state, you, names, "Forest")
}

/// Number of components of `s` of a color in `colors`.
pub open spec fn pips_of(s: Seq<ManaCostComponent>, colors: u8) -> nat
    decreases s.len(),
{
    if s.len() == 0 {
        0
    } else {
        pips_of(s.drop_last(), colors) + if crate::mana::spec_component_color_bits(s.last()) & colors != 0 {
            1nat
        } else {
            0nat
        }
    }
}

/// Devotion of one object (its count of qualifying pips, modulo 2^32).
pub open spec fn object_devotion(o: GameObject, colors: u8) -> nat {
    match o.characteristics.mana_cost {
        Some(m) => (pips_of(m.components@, colors) as u32) as nat,
        None => 0,
    }
}

/// Devotion summed over the permanents of `objs` that `you` control.
pub open spec fn devotion_sum(objs: Seq<GameObject>, you: PlayerId, colors: u8) -> nat
    decreases objs.len(),
{
    if objs.len() == 0 {
        0
    } else {
        devotion_sum(objs.drop_last(), you, colors) + if objs.last().zone == Zone::Battlefield
            && objs.last().controller == you {
            object_devotion(objs.last(), colors)
        } else {
            0nat
        }
    }
}

/// A prefix has no more devotion than the whole.
proof fn lemma_devotion_prefix(objs: Seq<GameObject>, k: int, you: PlayerId, colors: u8)
    requires
        0 <= k <= objs.len(),
    ensures
        devotion_sum(objs.take(k), you, colors) <= devotion_sum(objs, you, colors),
    decreases objs.len(),
{
    if k < objs.len() {
        assert(objs.drop_last().take(k) =~= objs.take(k));
        lemma_devotion_prefix(objs.drop_last(), k, you, colors);
    } else {
        assert(objs.take(k) =~= objs);
    }
}

fn cost_pips(comps: &Vec<ManaCostComponent>, colors: ColorSet) -> (n: usize)
    ensures
        n == pips_of(comps@, colors.0),
{
    let mut n: usize = 0;
    let mut i: usize = 0;
    while i < comps.len()
        invariant
            i <= comps@.len(),
            n == pips_of(comps@.take(i as int), colors.0),
            n <= i,
        decreases comps@.len() - i,
    {
        proof {
            assert(comps@.take(i + 1).drop_last() =~= comps@.take(i as int));
        }
        if comps[i].colors().0 & colors.0 != 0 {
            n = n + 1;
        }
        i = i + 1;
    }
    proof {
        assert(comps@.take(i as int) =~= comps@);
    }
    n
}

/// Devotion to `colors` (CR 700.5): mana symbols of those colors among
/// the mana costs of permanents `you` control. Each symbol counts once
/// when any color it names is among `colors` (a hybrid symbol too); 0 for
/// no colors or an invalid player.
pub fn devotion(state: &GameState, you: PlayerId, colors: ColorSet) -> (n: u32)
    requires
        devotion_sum(state.objects.objs@, you, colors.0) <= u32::MAX,
    ensures
        n == if colors.0 == 0 || !spec_valid(*state, you) {
            0
        } else {
            devotion_sum(state.objects.objs@, you, colors.0)
        },
{
    if colors.0 == 0 || !valid(state, you) {
        return 0;
    }
    let objs = &state.objects.objs;
    let mut n: u32 = 0;
    let mut i: usize = 0;
    while i < objs.len()
        invariant
            i <= objs@.len(),
            objs == &state.objects.objs,
            devotion_sum(objs@, you, colors.0) <= u32::MAX,
            n == devotion_sum(objs@.take(i as int), you, colors.0),
        decreases objs@.len() - i,
    {
        proof {
            assert(objs@.take(i + 1).drop_last() =~= objs@.take(i as int));
            lemma_devotion_prefix(objs@, i + 1, you, colors.0);
        }
        let o = &objs[i];
        if o.zone == Zone::Battlefield && o.controller == you {
            if let Some(mc) = &o.characteristics.mana_cost {
                let k = cost_pips(&mc.components, colors) as u32;
                n = n + k;
            }
        }
        i = i + 1;
    }
    proof {
        assert(objs@.take(i as int) =~= objs@);
    }
    n
}

/// Some object of `objs` in `zone` has one of the types `bits`.
pub open spec fn zone_has_type(objs: Seq<GameObject>, zone: Zone, bits: u16) -> bool {
    exists|i: int| 0 <= i < objs.len() && #[trigger] objs[i].zone == zone && objs[i].characteristics.types.has_bits(bits)
}

fn has_type_in(state: &GameState, zone: Zone, bits: u16) -> (b: bool)
    ensures
        b == zone_has_type(state.objects.objs@, zone, bits),
{
    let objs = &state.objects.objs;
    let mut i: usize = 0;
    while i < objs.len()
        invariant
            i <= objs@.len(),
            objs == &state.objects.objs,
            forall|k: int| 0 <= k < i ==> !(#[trigger] objs@[k].zone == zone && objs@[k].characteristics.types.has_bits(bits)),
        decreases objs@.len() - i,
    {
        if objs[i].zone == zone && objs[i].characteristics.types.0 & bits != 0 {
            return true;
        }
        i = i + 1;
    }
    false
}

/// 1 when `b`, else 0.
pub open spec fn one_if(b: bool) -> nat {
    if b { 1 } else { 0 }
}

/// Card types present in `player`'s graveyard.
pub open spec fn spec_graveyard_types(state: GameState, player: PlayerId) -> nat {
    let objs = state.objects.objs@;
    let z = Zone::Graveyard(player);
    one_if(zone_has_type(objs, z, crate::types::TypeLine::ARTIFACT)) + one_if(zone_has_type(objs, z, crate::types::TypeLine::BATTLE))
        + one_if(zone_has_type(objs, z, crate::types::TypeLine::CREATURE)) + one_if(zone_has_type(objs, z, crate::types::TypeLine::ENCHANTMENT))
        + one_if(zone_has_type(objs, z, crate::types::TypeLine::INSTANT)) + one_if(zone_has_type(objs, z, crate::types::TypeLine::LAND))
        + one_if(zone_has_type(objs, z, crate::types::TypeLine::PLANESWALKER)) + one_if(zone_has_type(objs, z, crate::types::TypeLine::SORCERY))
}

/// How many of the eight card types (artifact, battle, creature,
/// enchantment, instant, land, planeswalker, sorcery) appear among the
/// cards in `player`'s graveyard; 0 for an invalid player.
pub fn distinct_card_types_in_graveyard(state: &GameState, player: PlayerId) -> (n: u32)
    ensures
        n == if spec_valid(*state, player) {
            spec_graveyard_types(*state, player)
        } else {
            0
        },
{
    if !valid(state, player) {
        return 0;
    }
    let z = Zone::Graveyard(player);
    let mut n: u32 = 0;
    if has_type_in(state, z, crate::types::TypeLine::ARTIFACT) { n = n + 1; }
    if has_type_in(state, z, crate::types::TypeLine::BATTLE) { n = n + 1; }
    if has_type_in(state, z, crate::types::TypeLine::CREATURE) { n = n + 1; }
    if has_type_in(state, z, crate::types::TypeLine::ENCHANTMENT) { n = n + 1; }
    if has_type_in(state, z, crate::types::TypeLine::INSTANT) { n = n + 1; }
    if has_type_in(state, z, crate::types::TypeLine::LAND) { n = n + 1; }
    if has_type_in(state, z, crate::types::TypeLine::PLANESWALKER) { n = n + 1; }
    if has_type_in(state, z, crate::types::TypeLine::SORCERY) { n = n + 1; }
    n
}

/// `o` is on the battlefield and passes `f` with `you` as "you".
pub open spec fn bf_match(o: GameObject, f: ObjectFilter, state: GameState, you: PlayerId) -> bool {
    o.zone == Zone::Battlefield && f.spec_matches(o, state.continuous_effects@, you)
}

/// Every matching battlefield permanent has a mana value that fits a
/// `u32`.
pub open spec fn costs_fit(state: GameState, f: ObjectFilter, you: PlayerId) -> bool {
    forall|i: int|
        0 <= i < state.objects.objs@.len() && #[trigger] bf_match(state.objects.objs@[i], f, state, you)
            ==> crate::objects::spec_cost_value(state.objects.objs@[i].characteristics.mana_cost) <= u32::MAX
}

/// Greatest mana value among the matching battlefield permanents of
/// `objs` (0 when there is none).
pub open spec fn max_cost(objs: Seq<GameObject>, f: ObjectFilter, state: GameState, you: PlayerId) -> nat
    decreases objs.len(),
{
    if objs.len() == 0 {
        0
    } else {
        let rest = max_cost(objs.drop_last(), f, state, you);
        let o = objs.last();
        let v = crate::objects::spec_cost_value(o.characteristics.mana_cost);
        if bf_match(o, f, state, you) && v > rest {
            v
        } else {
            rest
        }
    }
}

/// The greatest mana value among battlefield permanents passing `filter`
/// (0 when none does).
pub fn max_cmc_of(state: &GameState, filter: &ObjectFilter, you: PlayerId) -> (n: u32)
    requires
        costs_fit(*state, *filter, you),
    ensures
        n == max_cost(state.objects.objs@, *filter, *state, you),
{
    let objs = &state.objects.objs;
    let mut best: u32 = 0;
    let mut i: usize = 0;
    while i < objs.len()
        invariant
            i <= objs@.len(),
            objs == &state.objects.objs,
            costs_fit(*state, *filter, you),
            best == max_cost(objs@.take(i as int), *filter, *state, you),
        decreases objs@.len() - i,
    {
        proof {
            assert(objs@.take(i + 1).drop_last() =~= objs@.take(i as int));
        }
        let o = &objs[i];
        if o.zone == Zone::Battlefield && filter.matches(o, state, you) {
            proof {
                assert(bf_match(objs@[i as int], *filter, *state, you));
            }
            let v = o.characteristics.mana_value();
            if v > best {
                best = v;
            }
        }
        i = i + 1;
    }
    proof {
        assert(objs@.take(i as int) =~= objs@);
    }
    best
}

/// Current power of `o`, 0 when it has none.
pub open spec fn power_or_zero(o: GameObject, state: GameState) -> int {
    match clamp_opt(spec_power_of(o, state.continuous_effects@)) {
        Some(v) => v as int,
        None => 0,
    }
}

/// Greatest current power among the matching battlefield permanents of
/// `objs`, `None` when there is none.
pub open spec fn max_power(objs: Seq<GameObject>, f: ObjectFilter, state: GameState, you: PlayerId) -> Option<int>
    decreases objs.len(),
{
    if objs.len() == 0 {
        None
    } else {
        let rest = max_power(objs.drop_last(), f, state, you);
        let o = objs.last();
        if bf_match(o, f, state, you) {
            let v = power_or_zero(o, state);
            match rest {
                Some(r) => if v > r { Some(v) } else { Some(r) },
                None => Some(v),
            }
        } else {
            rest
        }
    }
}

/// The greatest power among battlefield permanents passing `filter` (a
/// permanent without power counts 0); 0 when none does.
pub fn max_power_of(state: &GameState, filter: &ObjectFilter, you: PlayerId) -> (p: i32)
    ensures
        p == match max_power(state.objects.objs@, *filter, *state, you) {
            Some(v) => v,
            None => 0,
        },
{
    let objs = &state.objects.objs;
    let mut best: Option<i32> = None;
    let mut i: usize = 0;
    while i < objs.len()
        invariant
            i <= objs@.len(),
            objs == &state.objects.objs,
            match best {
                Some(b) => max_power(objs@.take(i as int), *filter, *state, you) == Some(b as int),
                None => max_power(objs@.take(i as int), *filter, *state, you) is None,
            },
        decreases objs@.len() - i,
    {
        proof {
            assert(objs@.take(i + 1).drop_last() =~= objs@.take(i as int));
        }
        let o = &objs[i];
        if o.zone == Zone::Battlefield && filter.matches(o, state, you) {
            let v = match crate::layers::power_of(o, &state.continuous_effects) {
                Some(v) => v,
                None => 0,
            };
            best = match best {
                Some(b) => if v > b { Some(v) } else { Some(b) },
                None => Some(v),
            };
        }
        i = i + 1;
    }
    proof {
        assert(objs@.take(i as int) =~= objs@);
    }
    match best {
        Some(b) => b,
        None => 0,
    }
}

/// The mana values of the matching battlefield permanents of `objs`.
pub open spec fn mana_values(objs: Seq<GameObject>, f: ObjectFilter, state: GameState, you: PlayerId) -> Set<u32>
    decreases objs.len(),
{
    if objs.len() == 0 {
        Set::empty()
    } else {
        let rest = mana_values(objs.drop_last(), f, state, you);
        let o = objs.last();
        if bf_match(o, f, state, you) {
            rest.insert(crate::objects::spec_cost_value(o.characteristics.mana_cost) as u32)
        } else {
            rest
        }
    }
}

/// Number of different mana values among battlefield permanents passing
/// `filter` (modulo 2^32).
pub fn distinct_mana_values(state: &GameState, filter: &ObjectFilter, you: PlayerId) -> (n: u32)
    requires
        costs_fit(*state, *filter, you),
    ensures
        n == mana_values(state.objects.objs@, *filter, *state, you).len() as u32,
{
    let objs = &state.objects.objs;
    let mut seen: Vec<u32> = Vec::new();
    let mut i: usize = 0;
    while i < objs.len()
        invariant
            i <= objs@.len(),
            objs == &state.objects.objs,
            costs_fit(*state, *filter, you),
            seen@.no_duplicates(),
            seen@.to_set() == mana_values(objs@.take(i as int), *filter, *state, you),
        decreases objs@.len() - i,
    {
        proof {
            assert(objs@.take(i + 1).drop_last() =~= objs@.take(i as int));
        }
        let o = &objs[i];
        if o.zone == Zone::Battlefield && filter.matches(o, state, you) {
            proof {
                assert(bf_match(objs@[i as int], *filter, *state, you));
            }
            let v = o.characteristics.mana_value();
            let mut found = false;
            let mut k: usize = 0;
            while k < seen.len()
                invariant
                    k <= seen@.len(),
                    !found ==> forall|j: int| 0 <= j < k ==> seen@[j] != v,
                    found ==> seen@.contains(v),
                decreases seen@.len() - k,
            {
                if seen[k] == v {
                    found = true;
                }
                k = k + 1;
            }
            let ghost before = seen@;
            if !found {
                seen.push(v);
                proof {
                    assert forall|x: u32| #[trigger] seen@.to_set().contains(x) == before.to_set().insert(v).contains(x) by {
                        if x == v {
                            assert(seen@[seen@.len() - 1] == v);
                        } else if before.contains(x) {
                            let j = choose|j: int| 0 <= j < before.len() && before[j] == x;
                            assert(seen@[j] == x);
                        } else if seen@.contains(x) {
                            let j = choose|j: int| 0 <= j < seen@.len() && seen@[j] == x;
                            assert(before[j] == x);
                        }
                    }
                    assert(seen@.to_set() =~= before.to_set().insert(v));
                }
            } else {
                proof {
                    assert(before.to_set().insert(v) =~= before.to_set());
                }
            }
        }
        i = i + 1;
    }
    proof {
        assert(objs@.take(i as int) =~= objs@);
        seen@.unique_seq_to_set();
    }
    seen.len() as u32
}

/// A death of something last controlled by a player below `k`.
pub open spec fn died_under_below(state: GameState, k: int) -> spec_fn(GameEvent) -> bool {
    |e: GameEvent| match e {
        GameEvent::Dies { object_id } => match spec_live_or_lki(state, object_id) {
            Some(o) => o.controller < k,
            None => false,
        },
        _ => false,
    }
}

/// Deaths over `evs` counted per controller, summed over players `0..k`.
pub open spec fn deaths_by_controller_sum(state: GameState, evs: Seq<GameEvent>, k: int) -> nat
    decreases k,
{
    if k <= 0 {
        0
    } else {
        deaths_by_controller_sum(state, evs, k - 1) + count_where(
            evs,
            event_is(state, EventQuery::DiesControlledBy((k - 1) as u8)),
        )
    }
}

/// One more controller adds exactly its own deaths.
proof fn lemma_died_below_step(state: GameState, evs: Seq<GameEvent>, k: int)
    requires
        0 <= k < 256,
    ensures
        count_where(evs, died_under_below(state, k + 1)) == count_where(evs, died_under_below(state, k))
            + count_where(evs, event_is(state, EventQuery::DiesControlledBy(k as u8))),
    decreases evs.len(),
{
    if evs.len() > 0 {
        lemma_died_below_step(state, evs.drop_last(), k);
    }
}

/// The per-controller sum counts the deaths of things last controlled by
/// a player below `k`.
proof fn lemma_died_sum(state: GameState, evs: Seq<GameEvent>, k: int)
    requires
        0 <= k <= 256,
    ensures
        deaths_by_controller_sum(state, evs, k) == count_where(evs, died_under_below(state, k)),
    decreases k,
{
    if k == 0 {
        assert(count_where(evs, died_under_below(state, 0)) == 0) by {
            lemma_count_mono(evs, died_under_below(state, 0), |e: GameEvent| false);
            lemma_none_count(evs);
        }
    } else {
        lemma_died_sum(state, evs, k - 1);
        lemma_died_below_step(state, evs, k - 1);
    }
}

/// Nothing satisfies `false`.
proof fn lemma_none_count(evs: Seq<GameEvent>)
    ensures
        count_where(evs, |e: GameEvent| false) == 0,
    decreases evs.len(),
{
    if evs.len() > 0 {
        lemma_none_count(evs.drop_last());
    }
}

/// Law: summed over the players, the deaths each controlled this turn
/// never exceed the deaths of the turn (each death belongs to at most one
/// controller).
pub proof fn law_deaths_by_controller_within_total(state: GameState)
    requires
        state.players@.len() <= 256,
    ensures
        deaths_by_controller_sum(state, this_turn(state), state.players@.len() as int) <= this_turn_count(
            state,
            EventQuery::Dies,
        ),
{
    let evs = this_turn(state);
    let n = state.players@.len() as int;
    lemma_died_sum(state, evs, n);
    lemma_count_mono(evs, died_under_below(state, n), event_is(state, EventQuery::Dies));
}

} // verus!
