//! The game state: players, objects, the event log and the pieces of
//! rules state the core reads (replacement and continuous effects,
//! combat, pending choices).

use vstd::prelude::*;
use std::collections::HashMap;
use crate::events::{DamageTarget, GameEvent, MoveCause};
use crate::layers::{
    ContinuousEffect, clamp_opt, object_has_keyword, power_of, spec_has_keyword, spec_power_of,
    spec_toughness_of, toughness_of,
};
use crate::mana::{ManaCost, ManaPool};
use crate::objects::{GameObject, ObjectArena, ObjectId, PermanentStatus, spec_reset};
use crate::priority::PriorityState;
use crate::replacement::{
    CounterTarget, PipelineView, ReplacementDuration, ReplacementEffect, etb_counter_list, etb_tapped, lemma_run_placement,
    placeable, spec_placed, spec_replace_damage, view_of,
};
use crate::turn::Step;
use crate::types::{counters_with, lemma_counters_with, CounterKind, KeywordAbility, PlayerId, TypeLine};
use crate::zones::{Zone, ZoneKind, spec_zone_kind};
use crate::layers::clamp_i32;

verus! {

broadcast use vstd::std_specs::hash::group_hash_axioms;

/// Starting life total (CR 103.4).
pub const STARTING_LIFE: i32 = 20;

/// A player's state.
#[derive(Clone, Debug)]
pub struct PlayerState {
    pub id: PlayerId,
    pub life: i32,
    pub has_lost: bool,
    /// Tried to draw from an empty library (CR 704.5b).
    pub has_drawn_from_empty_library: bool,
    pub poison_counters: u32,
    pub energy: u32,
    pub library_top_to_bottom: Vec<ObjectId>,
    pub mana_pool: ManaPool,
    pub lands_played_this_turn: u32,
}

impl PlayerState {
    /// A player at the start of the game.
    pub fn new(id: PlayerId) -> (p: PlayerState)
        ensures
            p.id == id,
            p.life == STARTING_LIFE,
            !p.has_lost,
            !p.has_drawn_from_empty_library,
            p.poison_counters == 0,
            p.energy == 0,
            p.library_top_to_bottom@.len() == 0,
            p.mana_pool.pool@.len() == 0,
            p.lands_played_this_turn == 0,
    {
        PlayerState {
            id,
            life: STARTING_LIFE,
            has_lost: false,
            has_drawn_from_empty_library: false,
            poison_counters: 0,
            energy: 0,
            library_top_to_bottom: Vec::new(),
            mana_pool: ManaPool::new(),
            lands_played_this_turn: 0,
        }
    }
}

/// Player `pl` in seat `i` as the game starts.
pub open spec fn fresh_player(pl: PlayerState, i: int) -> bool {
    &&& pl.id == i
    &&& pl.life == STARTING_LIFE
    &&& !pl.has_lost
    &&& !pl.has_drawn_from_empty_library
    &&& pl.poison_counters == 0
    &&& pl.energy == 0
    &&& pl.library_top_to_bottom@.len() == 0
}

/// How the game ended.
#[derive(Clone, Copy, Debug, PartialEq, Eq, Structural)]
pub enum GameResult {
    Win(PlayerId),
    Draw,
}

/// Why a choice is being asked for.
#[derive(Clone, Copy, Debug, PartialEq, Eq, Structural)]
pub enum ChoiceContext {
    /// A state-based action needs a decision (the legend rule).
    Sba,
    /// A resolving spell or ability needs a decision.
    Resolution,
}

/// What the choosing player must decide.
#[derive(Clone, Debug, PartialEq, Eq)]
pub enum ChoiceKind {
    /// Pick between `min` and `max` of `candidates`.
    PickCards { candidates: Vec<ObjectId>, min: usize, max: usize },
    /// Pay `cost` or decline (ward and the like).
    PayOrDecline { cost: ManaCost },
    /// Answer yes or no.
    YesNo,
}

/// A decision the game waits for.
#[derive(Clone, Debug)]
pub struct PendingChoice {
    pub choosing_player: PlayerId,
    pub context: ChoiceContext,
    pub kind: ChoiceKind,
}

/// An attacking creature.
#[derive(Clone, Debug)]
pub struct AttackerInfo {
    pub object_id: ObjectId,
    pub defender: PlayerId,
    /// Creatures blocking it, in declaration order.
    pub blocked_by: Vec<ObjectId>,
}

/// A blocking creature and the attacker it blocks.
#[derive(Clone, Copy, Debug, PartialEq, Eq, Structural)]
pub struct BlockerInfo {
    pub object_id: ObjectId,
    pub blocking: ObjectId,
}

/// Where combat stands: which declaration, if any, it waits for.
#[derive(Clone, Copy, Debug, PartialEq, Eq, Structural, Default)]
pub enum CombatPhase {
    /// Combat has begun; nothing is declared yet.
    #[default]
    Beginning,
    /// The active player declares attackers (CR 508.1).
    DeclareAttackers,
    /// The defending player declares blockers (CR 509.1).
    DeclareBlockers,
    /// The active player orders the blockers of each multiply-blocked
    /// attacker (CR 509.2).
    OrderBlockers,
    /// Declarations are done; combat damage and the end of combat follow.
    Damage,
}

/// Attackers and blockers of the current combat.
#[derive(Clone, Debug, Default)]
pub struct CombatState {
    pub phase: CombatPhase,
    pub attackers: Vec<AttackerInfo>,
    pub blockers: Vec<BlockerInfo>,
}

impl CombatState {
    /// Position of the first attacker entry for `id`.
    pub open spec fn first_attacker_index(&self, id: ObjectId) -> Option<int> {
        if exists|i: int| 0 <= i < self.attackers@.len() && #[trigger] self.attackers@[i].object_id == id {
            Some(
                choose|i: int|
                    0 <= i < self.attackers@.len() && #[trigger] self.attackers@[i].object_id == id
                        && forall|j: int| 0 <= j < i ==> self.attackers@[j].object_id != id,
            )
        } else {
            None
        }
    }

    /// The attacker entry for `id`, if it is attacking.
    pub fn attacker(&self, id: ObjectId) -> (r: Option<&AttackerInfo>)
        ensures
            r is Some == self.first_attacker_index(id) is Some,
            r matches Some(a) ==> a.object_id == id && *a == self.attackers@[self.first_attacker_index(id)->0],
    {
        let mut i: usize = 0;
        while i < self.attackers.len()
            invariant
                i <= self.attackers@.len(),
                forall|j: int| 0 <= j < i ==> self.attackers@[j].object_id != id,
            decreases self.attackers@.len() - i,
        {
            if self.attackers[i].object_id == id {
                proof {
                    let k = choose|k: int|
                        0 <= k < self.attackers@.len() && #[trigger] self.attackers@[k].object_id == id
                            && forall|j: int| 0 <= j < k ==> self.attackers@[j].object_id != id;
                    assert(k == i);
                }
                return Some(&self.attackers[i]);
            }
            i = i + 1;
        }
        None
    }
}

/// The whole game.
#[derive(Clone, Debug)]
pub struct GameState {
    pub players: Vec<PlayerState>,
    pub objects: ObjectArena,
    /// Last known information of objects that left their zone (CR 608.2h),
    /// by their id before the move.
    pub lki: HashMap<ObjectId, GameObject>,
    pub event_log: Vec<GameEvent>,
    /// Index in `event_log` where the current turn's events begin.
    pub turn_event_log_start: usize,
    /// Index in `event_log` where the previous turn's events begin.
    pub prev_turn_event_log_start: usize,
    pub result: Option<GameResult>,
    pub pending_choice: Option<PendingChoice>,
    pub replacement_effects: Vec<ReplacementEffect>,
    pub continuous_effects: Vec<ContinuousEffect>,
    pub combat: Option<CombatState>,
    /// The id the next new object gets.
    pub next_object_id: ObjectId,
    /// The next timestamp to hand out.
    pub timestamp: u64,
    pub active_player: PlayerId,
    pub turn_number: u32,
    pub step: Step,
    pub priority: PriorityState,
    pub seed: u64,
}

impl GameState {
    /// The arena is well formed, every object id is below
    /// `next_object_id`, and the seats fit a `PlayerId`.
    pub open spec fn wf(&self) -> bool {
        &&& self.objects.wf()
        &&& self.players@.len() <= 255
        &&& forall|k: ObjectId| #[trigger] self.objects@.contains_key(k) ==> k < self.next_object_id
    }

    /// A new game: `num_players` players at 20 life, no objects.
    pub fn new(num_players: u8, seed: u64) -> (s: GameState)
        ensures
            s.wf(),
            s.players@.len() == num_players,
            forall|i: int| 0 <= i < num_players ==> fresh_player(#[trigger] s.players@[i], i),
            s.objects@ == Map::<ObjectId, GameObject>::empty(),
            s.objects.objs@.len() == 0,
            s.lki@ == Map::<ObjectId, GameObject>::empty(),
            s.event_log@.len() == 0,
            s.turn_event_log_start == 0,
            s.prev_turn_event_log_start == 0,
            s.result is None,
            s.pending_choice is None,
            s.replacement_effects@.len() == 0,
            s.continuous_effects@.len() == 0,
            s.combat is None,
            s.next_object_id == 1,
            s.timestamp == 1,
            s.active_player == 0,
            s.turn_number == 1,
            s.step == Step::Untap,
            s.priority == (PriorityState { player: 0, consecutive_passes: 0, special_action: None }),
            s.seed == seed,
    {
        let mut players: Vec<PlayerState> = Vec::new();
        let mut p: u8 = 0;
        while p < num_players
            invariant
                p <= num_players,
                players@.len() == p,
                forall|i: int| 0 <= i < p ==> fresh_player(#[trigger] players@[i], i),
            decreases num_players - p,
        {
            players.push(PlayerState::new(p));
            p = p + 1;
        }
        GameState {
            players,
            objects: ObjectArena::new(),
            lki: HashMap::new(),
            event_log: Vec::new(),
            turn_event_log_start: 0,
            prev_turn_event_log_start: 0,
            result: None,
            pending_choice: None,
            replacement_effects: Vec::new(),
            continuous_effects: Vec::new(),
            combat: None,
            next_object_id: 1,
            timestamp: 1,
            active_player: 0,
            turn_number: 1,
            step: Step::Untap,
            priority: PriorityState { player: 0, consecutive_passes: 0, special_action: None },
            seed,
        }
    }

    pub fn num_players(&self) -> (n: u8)
        requires
            self.players@.len() <= 255,
        ensures
            n == self.players@.len(),
    {
        self.players.len() as u8
    }

    pub fn player(&self, p: PlayerId) -> (r: &PlayerState)
        requires
            p < self.players@.len(),
        ensures
            *r == self.players@[p as int],
    {
        &self.players[p as usize]
    }

    pub fn player_mut(&mut self, p: PlayerId) -> (r: &mut PlayerState)
        requires
            p < old(self).players@.len(),
        ensures
            *r == old(self).players@[p as int],
            final(self).players@ == old(self).players@.update(p as int, *final(r)),
            *final(self) == (GameState { players: final(self).players, ..*old(self) }),
    {
        &mut self.players[p as usize]
    }

    /// Hand out a fresh object id.
    pub fn allocate_object_id(&mut self) -> (id: ObjectId)
        requires
            old(self).next_object_id < u32::MAX,
        ensures
            id == old(self).next_object_id,
            *final(self) == (GameState { next_object_id: (id + 1) as u32, ..*old(self) }),
    {
        let id = self.next_object_id;
        self.next_object_id = id + 1;
        id
    }

    /// Hand out a fresh timestamp.
    pub fn next_timestamp(&mut self) -> (t: u64)
        requires
            old(self).timestamp < u64::MAX,
        ensures
            t == old(self).timestamp,
            *final(self) == (GameState { timestamp: (t + 1) as u64, ..*old(self) }),
    {
        let t = self.timestamp;
        self.timestamp = t + 1;
        t
    }

    /// Append `event` to the log.
    pub fn emit(&mut self, event: GameEvent)
        ensures
            final(self).event_log@ == old(self).event_log@.push(event),
            *final(self) == (GameState { event_log: final(self).event_log, ..*old(self) }),
    {
        self.event_log.push(event);
    }

    /// Number of objects in `zone`.
    pub fn zone_count(&self, zone: Zone) -> (n: usize)
        ensures
            n == self.objects.objs@.filter(|o: GameObject| o.zone == zone).len(),
    {
        self.objects.count_in_zone(zone)
    }

    /// Current power of object `id` (printed power, counters and
    /// continuous effects, clamped into `i32`); `None` when `id` is gone
    /// or has no power.
    pub fn computed_power(&self, id: ObjectId) -> (r: Option<i32>)
        requires
            self.objects.wf(),
        ensures
            self.objects@.contains_key(id) ==> r == clamp_opt(spec_power_of(self.objects@[id], self.continuous_effects@)),
            !self.objects@.contains_key(id) ==> r is None,
    {
        match self.objects.get(id) {
            Some(o) => power_of(o, &self.continuous_effects),
            None => None,
        }
    }

    /// Current toughness of object `id`; `None` when `id` is gone or has no
    /// toughness.
    pub fn computed_toughness(&self, id: ObjectId) -> (r: Option<i32>)
        requires
            self.objects.wf(),
        ensures
            self.objects@.contains_key(id) ==> r == clamp_opt(spec_toughness_of(self.objects@[id], self.continuous_effects@)),
            !self.objects@.contains_key(id) ==> r is None,
    {
        match self.objects.get(id) {
            Some(o) => toughness_of(o, &self.continuous_effects),
            None => None,
        }
    }

    /// Does object `id` have keyword `k` (printed or granted)?
    pub fn has_keyword(&self, id: ObjectId, k: &KeywordAbility) -> (b: bool)
        requires
            self.objects.wf(),
        ensures
            b == (self.objects@.contains_key(id) && spec_has_keyword(self.objects@[id], self.continuous_effects@, *k)),
    {
        match self.objects.get(id) {
            Some(o) => object_has_keyword(o, &self.continuous_effects, *k),
            None => false,
        }
    }

    /// Add a continuous effect.
    pub fn add_continuous_effect(&mut self, effect: ContinuousEffect)
        ensures
            final(self).continuous_effects@ == old(self).continuous_effects@.push(effect),
            *final(self) == (GameState { continuous_effects: final(self).continuous_effects, ..*old(self) }),
    {
        self.continuous_effects.push(effect);
    }

    /// Ask `player` for a decision.
    pub fn push_pending_choice(&mut self, player: PlayerId, context: ChoiceContext, kind: ChoiceKind)
        ensures
            final(self).pending_choice == Some(PendingChoice { choosing_player: player, context, kind }),
            *final(self) == (GameState { pending_choice: final(self).pending_choice, ..*old(self) }),
    {
        self.pending_choice = Some(PendingChoice { choosing_player: player, context, kind });
    }
}


/// `s` with every `id` taken out.
pub open spec fn without(s: Seq<ObjectId>, id: ObjectId) -> Seq<ObjectId>
    decreases s.len(),
{
    if s.len() == 0 {
        s
    } else {
        let r = without(s.drop_last(), id);
        if s.last() != id {
            r.push(s.last())
        } else {
            r
        }
    }
}

/// `b` is `a` once object `id` is gone: no longer attached to it and, for
/// the object `host` that `id` was attached to, without `id` among its
/// attachments.
pub open spec fn detached(a: GameObject, b: GameObject, id: ObjectId, host: Option<ObjectId>) -> bool {
    let a1 = if a.attached_to == Some(id) {
        GameObject { attached_to: None, ..a }
    } else {
        a
    };
    if host == Some(a.id) {
        &&& b == (GameObject { attachments: b.attachments, ..a1 })
        &&& b.attachments@ == without(a.attachments@, id)
    } else {
        b == a1
    }
}

/// `n` is `o` as a new object with id `new_id` in zone `to` (CR 400.7):
/// counters, damage, attachments and status cleared, controlled by its
/// owner.
pub open spec fn moved_object(o: GameObject, n: GameObject, new_id: ObjectId, to: Zone) -> bool {
    &&& forall|k: crate::types::CounterKind| #[trigger] n.counters.count(k) == 0
    &&& n.attachments@.len() == 0
    &&& n.attached_to is None
    &&& n.damage_marked == 0
    &&& !n.has_deathtouch_damage
    &&& n.status == (PermanentStatus { tapped: false, summoning_sick: false })
    &&& !n.madness_pending
    &&& !n.adventure_exile_pending
    &&& n.id == new_id
    &&& n.zone == to
    &&& n.owner == o.owner
    &&& n.controller == o.owner
    &&& n.card_id == o.card_id
    &&& n.characteristics == o.characteristics
    &&& n.abilities == o.abilities
    &&& n.visible_face == o.visible_face
    &&& n.is_token == o.is_token
    &&& n.commodity == o.commodity
}

/// Events logged when `o` (id `id`) leaves its zone for `to` as `new_id`:
/// the zone change, and a death for a creature or planeswalker going from
/// the battlefield to a graveyard.
pub open spec fn leave_events(o: GameObject, id: ObjectId, new_id: ObjectId, to: Zone, cause: MoveCause) -> Seq<GameEvent> {
    let zc = seq![GameEvent::ZoneChanged { object_id: id, new_id, from: o.zone, to, cause }];
    if o.zone == Zone::Battlefield && spec_zone_kind(to) == ZoneKind::Graveyard && (
    o.characteristics.types.has_bits(TypeLine::CREATURE) || o.characteristics.types.has_bits(TypeLine::PLANESWALKER)) {
        zc.push(GameEvent::Dies { object_id: id })
    } else {
        zc
    }
}

/// `new` is `old` after object `id` moved to zone `to` as the fresh object
/// `new_id` (before anything that entering the battlefield does).
pub open spec fn left_zone(old: GameState, new: GameState, id: ObjectId, new_id: ObjectId, to: Zone, cause: MoveCause) -> bool {
    let o = old.objects@[id];
    let i = old.objects.index_of(id);
    let rest = old.objects.objs@.remove(i);
    &&& new.objects.wf()
    &&& new_id == old.next_object_id
    &&& new.next_object_id == old.next_object_id + 1
    &&& new.objects@.contains_key(new_id)
    &&& moved_object(o, new.objects@[new_id], new_id, to)
    &&& exists|mid: Seq<GameObject>, pos: int|
        #![trigger mid.insert(pos, new.objects@[new_id])]
        mid.len() == rest.len() && 0 <= pos <= mid.len() && (forall|j: int|
            0 <= j < mid.len() ==> #[trigger] detached(rest[j], mid[j], id, o.attached_to))
            && new.objects.objs@ == mid.insert(pos, new.objects@[new_id])
    &&& new.lki@ == old.lki@.insert(id, new.lki@[id])
    &&& new.lki@[id].same_as(o)
    &&& new.replacement_effects@ == if o.zone == Zone::Battlefield {
        old.replacement_effects@.filter(
            |e: ReplacementEffect| !(e.source == id && e.duration == ReplacementDuration::WhileSourceOnBattlefield),
        )
    } else {
        old.replacement_effects@
    }
    &&& new.event_log@ == old.event_log@ + leave_events(o, id, new_id, to, cause)
    &&& new == (GameState {
        objects: new.objects,
        lki: new.lki,
        replacement_effects: new.replacement_effects,
        event_log: new.event_log,
        next_object_id: new.next_object_id,
        ..old
    })
}

/// Damage dealt to a player's life total, limited to the `i32` range.
pub open spec fn life_after_damage(life: i32, amount: u32) -> i32 {
    clamp_i32(life - amount)
}

/// A source has deathtouch when it is on the arena with the keyword.
pub open spec fn source_has_deathtouch(s: GameState, source: ObjectId) -> bool {
    s.objects@.contains_key(source) && spec_has_keyword(s.objects@[source], s.continuous_effects@, KeywordAbility::Deathtouch)
}

impl GameState {
    /// Deal damage after replacement effects. An object gets the damage
    /// marked (and the deathtouch flag when the source has deathtouch); a
    /// player loses that much life. Returns the damage dealt (0 when
    /// prevented or when the target is gone).
    pub fn deal_damage(&mut self, source: ObjectId, target: DamageTarget, amount: u32, is_combat: bool) -> (dealt: u32)
        requires
            old(self).objects.wf(),
        ensures
            final(self).objects.wf(),
            match spec_replace_damage(view_of(*old(self)), source, target, amount) {
                Some((src, DamageTarget::Object(id), amt)) => if amt > 0 && old(self).objects@.contains_key(id) {
                    let o = old(self).objects@[id];
                    let n = final(self).objects@[id];
                    &&& dealt == amt
                    &&& n == (GameObject {
                        damage_marked: if o.damage_marked + amt > u32::MAX {
                            u32::MAX
                        } else {
                            (o.damage_marked + amt) as u32
                        },
                        has_deathtouch_damage: o.has_deathtouch_damage || source_has_deathtouch(*old(self), src),
                        ..o
                    })
                    &&& final(self).objects@ == old(self).objects@.insert(id, n)
                    &&& final(self).objects.ids@ == old(self).objects.ids@
                    &&& final(self).objects.objs@ == old(self).objects.objs@.update(old(self).objects.index_of(id), n)
                    &&& final(self).event_log@ == old(self).event_log@.push(
                        GameEvent::DamageDealt { source: src, target: DamageTarget::Object(id), amount: amt, is_combat },
                    )
                    &&& *final(self) == (GameState {
                        objects: final(self).objects,
                        event_log: final(self).event_log,
                        ..*old(self)
                    })
                } else {
                    dealt == 0 && *final(self) == *old(self)
                },
                Some((src, DamageTarget::Player(p), amt)) => if amt > 0 && p < old(self).players@.len() {
                    let pl = old(self).players@[p as int];
                    &&& dealt == amt
                    &&& final(self).players@ == old(self).players@.update(
                        p as int,
                        PlayerState { life: life_after_damage(pl.life, amt), ..pl },
                    )
                    &&& final(self).event_log@ == old(self).event_log@.push(
                        GameEvent::DamageDealt { source: src, target: DamageTarget::Player(p), amount: amt, is_combat },
                    ).push(GameEvent::LifeLost { player: p, amount: amt })
                    &&& *final(self) == (GameState {
                        players: final(self).players,
                        event_log: final(self).event_log,
                        ..*old(self)
                    })
                } else {
                    dealt == 0 && *final(self) == *old(self)
                },
                None => dealt == 0 && *final(self) == *old(self),
            },
    {
        let (src, tgt, amt) = match self.replace_damage(source, target, amount) {
            Some(t) => t,
            None => {
                return 0;
            },
        };
        if amt == 0 {
            return 0;
        }
        match tgt {
            DamageTarget::Object(id) => {
                let deathtouch = self.has_keyword(src, &KeywordAbility::Deathtouch);
                let ghost before = *self;
                match self.objects.get_mut(id) {
                    Some(o) => {
                        o.mark_damage(amt);
                        if deathtouch {
                            o.has_deathtouch_damage = true;
                        }
                    },
                    None => {
                        return 0;
                    },
                }
                proof {
                    before.objects.lemma_index(id);
                    before.objects.lemma_update(self.objects, id, self.objects.objs@[before.objects.index_of(id)]);
                }
                self.emit(GameEvent::DamageDealt { source: src, target: tgt, amount: amt, is_combat });
                amt
            },
            DamageTarget::Player(p) => {
                if (p as usize) >= self.players.len() {
                    return 0;
                }
                let pl = self.player_mut(p);
                let life = pl.life as i64 - amt as i64;
                pl.life = if life < i32::MIN as i64 {
                    i32::MIN
                } else {
                    life as i32
                };
                self.emit(GameEvent::DamageDealt { source: src, target: tgt, amount: amt, is_combat });
                self.emit(GameEvent::LifeLost { player: p, amount: amt });
                amt
            },
        }
    }

    /// Move object `id` to zone `to`; it becomes a new object with a fresh
    /// id (CR 400.7), which is returned. `None` (and no change) when `id` is
    /// not in the game. What the move does before entering is stated by
    /// [`left_zone`]; an object entering the battlefield from elsewhere then
    /// goes through [`Self::after_enter_battlefield`].
    pub fn move_object_to_zone(&mut self, id: ObjectId, to: Zone, cause: MoveCause) -> (r: Option<ObjectId>)
        requires
            old(self).wf(),
            old(self).next_object_id < u32::MAX,
        ensures
            final(self).wf(),
            !old(self).objects@.contains_key(id) ==> r is None && *final(self) == *old(self),
            old(self).objects@.contains_key(id) ==> r == Some(old(self).next_object_id),
            old(self).objects@.contains_key(id) && (to != Zone::Battlefield || old(self).objects@[id].zone
                == Zone::Battlefield) ==> left_zone(*old(self), *final(self), id, old(self).next_object_id, to, cause),
            old(self).objects@.contains_key(id) && to == Zone::Battlefield && old(self).objects@[id].zone
                != Zone::Battlefield ==> exists|mid: GameState|
                left_zone(*old(self), mid, id, old(self).next_object_id, to, cause) && entered_battlefield(
                    mid,
                    *final(self),
                    old(self).next_object_id,
                ),
    {
        let from = match self.objects.get(id) {
            Some(o) => o.zone,
            None => {
                return None;
            },
        };
        let new_id = self.leave_zone(id, to, cause);
        if to == Zone::Battlefield && from != Zone::Battlefield {
            let ghost mid = *self;
            self.after_enter_battlefield(new_id);
            proof {
                assert(left_zone(*old(self), mid, id, old(self).next_object_id, to, cause));
            }
        }
        Some(new_id)
    }

    /// The move itself: see [`left_zone`].
    fn leave_zone(&mut self, id: ObjectId, to: Zone, cause: MoveCause) -> (new_id: ObjectId)
        requires
            old(self).wf(),
            old(self).next_object_id < u32::MAX,
            old(self).objects@.contains_key(id),
        ensures
            final(self).wf(),
            new_id == old(self).next_object_id,
            left_zone(*old(self), *final(self), id, new_id, to, cause),
    {
        let ghost s0 = *self;
        proof {
            s0.objects.lemma_index(id);
        }
        let o = match self.objects.remove(id) {
            Some(o) => o,
            None => {
                return 0;
            },
        };
        let from = o.zone;
        let snapshot = o.duplicate();
        self.lki.insert(id, snapshot);
        let ghost rest = self.objects.objs@;
        let ghost s1 = *self;
        // Unattach everything attached to the leaving object.
        let mut j: usize = 0;
        while j < self.objects.objs.len()
            invariant
                *self == (GameState { objects: self.objects, ..s1 }),
                self.objects.wf(),
                self.objects.ids@ == s0.objects.ids@.remove(s0.objects.index_of(id)),
                rest.len() == self.objects.objs@.len(),
                j <= rest.len(),
                forall|k: int| 0 <= k < j ==> #[trigger] self.objects.objs@[k] == if rest[k].attached_to == Some(id) {
                    GameObject { attached_to: None, ..rest[k] }
                } else {
                    rest[k]
                },
                forall|k: int| j <= k < rest.len() ==> #[trigger] self.objects.objs@[k] == rest[k],
            decreases rest.len() - j,
        {
            if self.objects.objs[j].attached_to == Some(id) {
                self.objects.objs[j].attached_to = None;
            }
            j = j + 1;
        }
        let ghost unattached = self.objects.objs@;
        let ghost mut edited: Option<int> = None;
        // Take it off the list of the object it was attached to.
        match o.attached_to {
            Some(h) => match self.objects.find(h) {
                Some(hi) => {
                    let mut kept: Vec<ObjectId> = Vec::new();
                    let mut k: usize = 0;
                    while k < self.objects.objs[hi].attachments.len()
                        invariant
                            hi < self.objects.objs@.len(),
                            self.objects.objs@ == unattached,
                            k <= self.objects.objs@[hi as int].attachments@.len(),
                            kept@ == without(self.objects.objs@[hi as int].attachments@.take(k as int), id),
                        decreases self.objects.objs@[hi as int].attachments@.len() - k,
                    {
                        let x = self.objects.objs[hi].attachments[k];
                        proof {
                            let a = self.objects.objs@[hi as int].attachments@;
                            assert(a.take(k + 1).drop_last() =~= a.take(k as int));
                            assert(a.take(k + 1).last() == x);
                        }
                        if x != id {
                            kept.push(x);
                        }
                        k = k + 1;
                    }
                    proof {
                        let a = self.objects.objs@[hi as int].attachments@;
                        assert(a.take(k as int) =~= a);
                    }
                    self.objects.objs[hi].attachments = kept;
                    proof {
                        edited = Some(hi as int);
                        assert forall|j: int| 0 <= j < self.objects.ids@.len() && o.attached_to == Some(
                            #[trigger] self.objects.ids@[j],
                        ) implies edited == Some(j) by {
                            if j < hi {
                                assert(self.objects.ids@[j] < self.objects.ids@[hi as int]);
                            } else if j > hi {
                                assert(self.objects.ids@[hi as int] < self.objects.ids@[j]);
                            }
                        }
                    }
                },
                None => {
                    proof {
                        assert forall|j: int| 0 <= j < self.objects.ids@.len() && o.attached_to == Some(
                            #[trigger] self.objects.ids@[j],
                        ) implies edited == Some(j) by {
                            assert(self.objects.ids@.contains(self.objects.ids@[j]));
                        }
                    }
                },
            },
            None => {},
        }
        proof {
            let host = o.attached_to;
            assert(forall|j: int| 0 <= j < self.objects.ids@.len() && o.attached_to == Some(#[trigger] self.objects.ids@[j]) ==> edited == Some(j));
            assert(edited matches Some(e) ==> 0 <= e < self.objects.objs@.len() && self.objects.objs@ == unattached.update(e, self.objects.objs@[e]));
            assert forall|j: int| 0 <= j < rest.len() implies #[trigger] detached(rest[j], self.objects.objs@[j], id, host) by {
                assert(rest[j].id == self.objects.ids@[j]);
                assert(unattached[j] == if rest[j].attached_to == Some(id) {
                    GameObject { attached_to: None, ..rest[j] }
                } else {
                    rest[j]
                });
                if edited == Some(j) {
                    assert(self.objects.ids@[j] == host->0);
                    assert(self.objects.objs@[j] == (GameObject { attachments: self.objects.objs@[j].attachments, ..unattached[j] }));
                    assert(host == Some(rest[j].id));
                    assert(unattached[j].attachments == rest[j].attachments);
                    assert(detached(rest[j], self.objects.objs@[j], id, host));
                } else {
                    assert(self.objects.objs@[j] == unattached[j]);
                    assert(host != Some(rest[j].id));
                    assert(detached(rest[j], self.objects.objs@[j], id, host));
                }
            }
        }
        let ghost mid_objs = self.objects.objs@;
        let ghost s2 = *self;
        if from == Zone::Battlefield {
            self.expire_replacements_from_source(id);
        }
        let cpw = o.is_creature() || o.is_planeswalker();
        proof {
            assert(self.objects.ids@ == s0.objects.ids@.remove(s0.objects.index_of(id)));
            assert forall|k: ObjectId| #[trigger] self.objects@.contains_key(k) implies k < s0.next_object_id by {
                let j = choose|j: int| 0 <= j < self.objects.ids@.len() && self.objects.ids@[j] == k;
                let i0 = s0.objects.index_of(id);
                if j < i0 {
                    assert(s0.objects.ids@[j] == k);
                } else {
                    assert(s0.objects.ids@[j + 1] == k);
                }
                assert(s0.objects.ids@.contains(k));
                assert(s0.objects@.contains_key(k));
            }
        }
        let new_id = self.allocate_object_id();
        let mut n = o;
        n.reset_on_zone_change();
        n.id = new_id;
        n.zone = to;
        n.controller = n.owner;
        self.objects.insert(n);
        self.emit(GameEvent::ZoneChanged { object_id: id, new_id, from, to, cause });
        let dies = from == Zone::Battlefield && to.kind() == ZoneKind::Graveyard && cpw;
        if dies {
            self.emit(GameEvent::Dies { object_id: id });
        }
        proof {
            let o0 = s0.objects@[id];
            assert(mid_objs.len() == rest.len());
            assert(self.objects.wf());
            assert(self.objects@.contains_key(new_id));
            assert(moved_object(o0, self.objects@[new_id], new_id, to));
            assert(self.lki@ == s0.lki@.insert(id, self.lki@[id]));
            assert(self.lki@[id].same_as(o0));
            assert(self.event_log@ == s0.event_log@ + leave_events(o0, id, new_id, to, cause));
        }
        new_id
    }
}


/// `new` is `mid` after object `new_id`, now on the battlefield, went
/// through entering: it is summoning sick, the other objects, the players
/// and the id counter are as they were, and events were only appended.
/// (Entering tapped and enter-with counters come from
/// [`GameState::collect_etb_replacements`] and
/// [`GameState::place_counters`].)
pub open spec fn entered(mid: GameState, new: GameState, new_id: ObjectId) -> bool {
    &&& new.wf()
    &&& new.objects@.contains_key(new_id)
    &&& new.objects@[new_id].zone == mid.objects@[new_id].zone
    &&& new.objects@[new_id].status.summoning_sick
    &&& new.objects@.dom() == mid.objects@.dom()
    &&& forall|k: ObjectId| k != new_id && #[trigger] mid.objects@.contains_key(k) ==> new.objects@[k] == mid.objects@[k]
    &&& new.next_object_id == mid.next_object_id
    &&& new.players == mid.players
    &&& new.event_log@.len() >= mid.event_log@.len()
    &&& new.event_log@.subrange(0, mid.event_log@.len() as int) == mid.event_log@
}

/// The view after placing `c` counters of kind `k` on object `id`
/// through the replacement effects; unchanged when nothing is placed or
/// the placement would overflow its counter.
pub open spec fn view_after_place(v: PipelineView, id: ObjectId, k: CounterKind, c: u32) -> PipelineView {
    match spec_placed(v, CounterTarget::Object(id), k, c) {
        Some((_, _, c2)) => if v.objects.contains_key(id) && v.objects[id].counters.count(k) + c2 <= u32::MAX {
            PipelineView {
                objects: v.objects.insert(
                    id,
                    GameObject {
                        counters: counters_with(v.objects[id].counters, k, (v.objects[id].counters.count(k) + c2) as u32),
                        ..v.objects[id]
                    },
                ),
                ..v
            }
        } else {
            v
        },
        None => v,
    }
}

/// The view after the placements `ps` on object `id`, in order.
pub open spec fn view_after_places(v: PipelineView, id: ObjectId, ps: Seq<(CounterKind, u32)>) -> PipelineView
    decreases ps.len(),
{
    if ps.len() == 0 {
        v
    } else {
        view_after_place(view_after_places(v, id, ps.drop_last()), id, ps.last().0, ps.last().1)
    }
}

/// The counters object `new_id` of `mid` ends with once it enters the
/// battlefield: its "enters with counters" placements (self-replacements
/// first), each run through the replacement effects against the state
/// in which it is already summoning sick and tapped as it enters.
pub open spec fn etb_final_counters(mid: GameState, new_id: ObjectId) -> crate::types::CounterMap {
    let v = view_of(mid);
    let o = mid.objects@[new_id];
    let arrived = GameObject {
        status: PermanentStatus { tapped: o.status.tapped || etb_tapped(v, new_id), summoning_sick: true },
        ..o
    };
    let v1 = PipelineView { objects: v.objects.insert(new_id, arrived), ..v };
    let ps = etb_counter_list(v, new_id);
    view_after_places(v1, new_id, ps).objects[new_id].counters
}

/// [`entered`], and: the object is the one that arrived with its counters
/// updated, summoning sick and tapped when it was or an ETB replacement
/// says so; the last event logged is its entry.
pub open spec fn entered_battlefield(mid: GameState, new: GameState, new_id: ObjectId) -> bool {
    &&& entered(mid, new, new_id)
    &&& new.objects@[new_id] == (GameObject {
        counters: etb_final_counters(mid, new_id),
        status: PermanentStatus {
            tapped: mid.objects@[new_id].status.tapped || etb_tapped(view_of(mid), new_id),
            summoning_sick: true,
        },
        ..mid.objects@[new_id]
    })
    &&& new.event_log@.last() == (GameEvent::EntersBattlefield {
        object_id: new_id,
        controller: mid.objects@[new_id].controller,
    })
}

impl GameState {
    /// Entering the battlefield: apply the enter-the-battlefield
    /// replacement effects to `new_id` (tapped, counters through the
    /// counter pipeline; a placement that would overflow a counter is
    /// skipped), mark it summoning sick and log its entry.
    pub fn after_enter_battlefield(&mut self, new_id: ObjectId)
        requires
            old(self).wf(),
            old(self).objects@.contains_key(new_id),
        ensures
            entered_battlefield(*old(self), *final(self), new_id),
    {
        let etb = self.collect_etb_replacements(new_id);
        let ghost s0 = *self;
        proof {
            s0.objects.lemma_index(new_id);
        }
        let controller;
        match self.objects.get_mut(new_id) {
            Some(o) => {
                o.status.summoning_sick = true;
                if etb.enter_tapped {
                    o.status.tapped = true;
                }
                controller = o.controller;
            },
            None => {
                return;
            },
        }
        proof {
            s0.objects.lemma_update(self.objects, new_id, self.objects.objs@[s0.objects.index_of(new_id)]);
            assert(self.objects@.dom() =~= s0.objects@.dom());
            assert forall|k: ObjectId| #[trigger] self.objects@.contains_key(k) implies k < self.next_object_id by {
                assert(s0.objects@.contains_key(k));
            }
            assert(self.event_log@.subrange(0, s0.event_log@.len() as int) =~= s0.event_log@);
        }
        let ghost s1 = *self;
        proof {
            assert(s1.objects@[new_id] == (GameObject {
                status: PermanentStatus {
                    tapped: s0.objects@[new_id].status.tapped || etb_tapped(view_of(s0), new_id),
                    summoning_sick: true,
                },
                ..s0.objects@[new_id]
            }));
        }
        let ghost v0 = view_of(s0);
        let ghost v1 = PipelineView { objects: v0.objects.insert(new_id, s1.objects@[new_id]), ..v0 };
        let ghost ps = etb.additional_counters@;
        proof {
            assert(view_of(s1) =~= v1) by {
                assert(s1.objects@ =~= s0.objects@.insert(new_id, s1.objects@[new_id])) by {
                    assert forall|k: ObjectId| #[trigger] s1.objects@.contains_key(k) && k != new_id implies s1.objects@[k] == s0.objects@[k] by {
                    }
                }
            }
            assert(ps.take(0) =~= Seq::<(CounterKind, u32)>::empty());
        }
        let mut i: usize = 0;
        while i < etb.additional_counters.len()
            invariant
                entered(s0, *self, new_id),
                ps == etb.additional_counters@,
                view_of(*self) == view_after_places(v1, new_id, ps.take(i as int)),
                i <= etb.additional_counters@.len(),
                s1.objects@[new_id] == (GameObject {
                    status: PermanentStatus {
                        tapped: s0.objects@[new_id].status.tapped || etb_tapped(view_of(s0), new_id),
                        summoning_sick: true,
                    },
                    ..s0.objects@[new_id]
                }),
                self.objects@[new_id] == (GameObject { counters: self.objects@[new_id].counters, ..s1.objects@[new_id] }),
                controller == s0.objects@[new_id].controller,
            decreases etb.additional_counters@.len() - i,
        {
            let (k, c) = etb.additional_counters[i];
            let ghost before = *self;
            self.place_counters_checked(CounterTarget::Object(new_id), k, c);
            proof {
                assert(ps.take(i + 1).drop_last() =~= ps.take(i as int));
                assert(ps.take(i + 1).last() == (k, c));
                assert(before.event_log@.subrange(0, s0.event_log@.len() as int) == s0.event_log@);
                assert(self.event_log@.subrange(0, s0.event_log@.len() as int) =~= before.event_log@.subrange(
                    0,
                    s0.event_log@.len() as int,
                ));
            }
            i = i + 1;
        }
        proof {
            assert(ps.take(i as int) =~= ps);
            assert(self.objects@[new_id].counters == etb_final_counters(s0, new_id));
        }
        let ghost before = *self;
        self.emit(GameEvent::EntersBattlefield { object_id: new_id, controller });
        proof {
            assert(self.event_log@.subrange(0, s0.event_log@.len() as int) =~= before.event_log@.subrange(
                0,
                s0.event_log@.len() as int,
            ));
        }
    }

    /// [`Self::place_counters`] on an object, skipped when the result would
    /// overflow the object's counter.
    fn place_counters_checked(&mut self, target: CounterTarget, kind: crate::types::CounterKind, count: u32)
        requires
            old(self).wf(),
            target is Object,
        ensures
            final(self).wf(),
            final(self).objects@.dom() == old(self).objects@.dom(),
            forall|k: ObjectId| #![trigger old(self).objects@.contains_key(k)]
                CounterTarget::Object(k) != target && old(self).objects@.contains_key(k) ==> final(self).objects@[k]
                    == old(self).objects@[k],
            forall|k: ObjectId| #![trigger old(self).objects@.contains_key(k)]
                CounterTarget::Object(k) == target && old(self).objects@.contains_key(k) ==> final(self).objects@[k]
                    == (GameObject { counters: final(self).objects@[k].counters, ..old(self).objects@[k] }),
            final(self).next_object_id == old(self).next_object_id,
            final(self).players == old(self).players,
            final(self).event_log@.len() >= old(self).event_log@.len(),
            final(self).event_log@.subrange(0, old(self).event_log@.len() as int) == old(self).event_log@,
            target matches CounterTarget::Object(id) ==> view_of(*final(self)) == view_after_place(
                view_of(*old(self)),
                id,
                kind,
                count,
            ),
    {
        if count == 0 {
            return;
        }
        let res = self.run_replacements(crate::replacement::ReplacementEvent::PlaceCounters { target, kind, count });
        proof {
            lemma_run_placement(view_of(*self), Set::empty(), target, kind, count);
        }
        let fits = match res {
            Some(crate::replacement::ReplacementEvent::PlaceCounters { target: t, kind: k, count: c }) => match t {
                CounterTarget::Object(oid) => match self.objects.get(oid) {
                    Some(o) => (o.counters.get(k) as u64) + (c as u64) <= u32::MAX as u64,
                    None => true,
                },
                CounterTarget::Player(_) => false,
            },
            _ => true,
        };
        if !fits {
            return;
        }
        let ghost before = *self;
        let r = self.place_counters(target, kind, count);
        proof {
            let id = target->Object_0;
            match spec_placed(view_of(before), target, kind, count) {
                Some((CounterTarget::Object(t), k, c)) => {
                    if before.objects@.contains_key(id) {
                        let o = before.objects@[id];
                        let n = self.objects@[id];
                        lemma_counters_with(o.counters, k, (o.counters.count(k) + c) as u32, n.counters);
                        assert(view_of(*self) =~= view_after_place(view_of(before), id, kind, count));
                    }
                },
                _ => {},
            }
        }
        proof {
            lemma_run_placement(view_of(before), Set::empty(), target, kind, count);
            match spec_placed(view_of(before), target, kind, count) {
                Some((CounterTarget::Object(id), k, c)) => {
                    if before.objects@.contains_key(id) {
                        let n = self.objects@[id];
                        assert(self.objects@ == before.objects@.insert(id, n));
                        assert(self.objects@.dom() =~= before.objects@.dom());
                        assert forall|k: ObjectId| #[trigger] self.objects@.contains_key(k) implies k < self.next_object_id by {
                            assert(before.objects@.contains_key(k));
                        }
                        assert(self.event_log@.subrange(0, before.event_log@.len() as int) =~= before.event_log@);
                    }
                },
                Some((CounterTarget::Player(p), k, c)) => {},
                None => {},
            }
        }
    }
}

} // verus!
