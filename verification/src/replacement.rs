//! Replacement effects (CR 614).
//!
//! A replacement effect intercepts an event before it happens and changes
//! or cancels it. Each replacement applies at most once to a given event
//! (CR 614.5), and self-replacement effects apply before the others
//! (CR 614.15). Among several candidates of the same rank the earliest
//! registered one applies first (a stand-in for the affected player's
//! choice, CR 616.1).
//!
//! Damage and counter placement run through the full pipeline
//! ([`GameState::replace_damage`], [`GameState::place_counters`]); the
//! enter-the-battlefield collector and the die pipeline gather what
//! applies for the caller to commit.

use vstd::prelude::*;
use crate::counting::{count_where, lemma_count_stronger_strict, sort_by_key_stable, sorted_by_key};
use crate::events::{DamageTarget, GameEvent};
use crate::layers::ContinuousEffect;
use crate::objects::{GameObject, ObjectId};
use crate::state::{GameState, PlayerState};
use crate::targets::{ControllerConstraint, ObjectFilter, TargetChoice, TargetFilter, spec_controller_ok};
use crate::types::{CounterKind, PlayerId};

verus! {

/// Where counters are being placed.
#[derive(Clone, Copy, Debug, PartialEq, Eq, Structural, Hash)]
pub enum CounterTarget {
    Object(ObjectId),
    Player(PlayerId),
}

/// Which counter kinds a replacement cares about.
#[derive(Clone, Copy, Debug, PartialEq, Eq, Structural)]
pub enum CounterKindFilter {
    Any,
    Only(CounterKind),
}

pub open spec fn spec_kind_filter(f: CounterKindFilter, kind: CounterKind) -> bool {
    match f {
        CounterKindFilter::Any => true,
        CounterKindFilter::Only(k) => k == kind,
    }
}

impl CounterKindFilter {
    pub fn matches(&self, kind: CounterKind) -> (b: bool)
        ensures
            b == spec_kind_filter(*self, kind),
    {
        match self {
            CounterKindFilter::Any => true,
            CounterKindFilter::Only(k) => *k == kind,
        }
    }
}

/// A registered replacement effect.
#[derive(Clone, Copy, Debug, PartialEq, Eq, Structural)]
pub struct ReplacementEffect {
    /// Object that created the effect.
    pub source: ObjectId,
    /// Assigned on registration; also its timestamp.
    pub id: u64,
    pub condition: ReplacementCondition,
    pub kind: ReplacementKind,
    /// Comes from the affected object itself (CR 614.15).
    pub is_self_replacement: bool,
    pub duration: ReplacementDuration,
}

/// How long a replacement effect lasts.
#[derive(Clone, Copy, Debug, PartialEq, Eq, Structural, Hash)]
pub enum ReplacementDuration {
    Permanent,
    /// Removed in the cleanup step (CR 514.2).
    EndOfTurn,
    /// Removed when the source leaves the battlefield.
    WhileSourceOnBattlefield,
}

/// Which would-be events a replacement intercepts.
#[derive(Clone, Copy, Debug, PartialEq, Eq, Structural)]
pub enum ReplacementCondition {
    /// "If a [source] would deal damage to [target], ..."
    WouldDealDamage { source_filter: ObjectFilter, target_filter: TargetFilter },
    /// Damage to this one target, from any source.
    WouldDealDamageToSpecific { target: DamageTarget },
    WouldEnterBattlefield { object_filter: ObjectFilter },
    WouldDie { object_filter: ObjectFilter },
    /// This one object would die.
    WouldDieSpecific { object_id: ObjectId },
    WouldBeCountered { spell_filter: ObjectFilter },
    WouldDrawCard { player: ControllerConstraint },
    WouldBeginTurn { player: PlayerId },
    WouldCreateToken { token_filter: ObjectFilter },
    /// Counters of `kinds` would be placed on an object passing the filter.
    WouldPlaceCounters { object_filter: ObjectFilter, kinds: CounterKindFilter },
}

/// What a replacement does.
#[derive(Clone, Copy, Debug, PartialEq, Eq, Structural)]
pub enum ReplacementKind {
    PreventAllDamage,
    /// Prevent the next N damage.
    PreventDamageUpTo(u32),
    DoubleDamage,
    RedirectDamageTo(DamageTarget),
    /// Enters with N counters.
    EtbWithCounters { kind: CounterKind, count: u32 },
    EtbTapped,
    ExileInsteadOfDying,
    /// Regenerate (CR 701.25); the shield is used up.
    RegenerateShield,
    /// N more counters are placed.
    AddAdditionalCounters(u32),
    /// N times as many counters are placed.
    MultiplyCounters(u32),
    DrawAdditional(u32),
    SkipDraw,
}

/// A would-be event on its way through the pipeline.
#[derive(Clone, Copy, Debug, PartialEq, Eq, Structural)]
pub enum ReplacementEvent {
    Damage { source: ObjectId, target: DamageTarget, amount: u32 },
    EnterBattlefield { object_id: ObjectId },
    Die { object_id: ObjectId },
    CounterSpell { stack_entry_id: ObjectId },
    DrawCard { player: PlayerId },
    BeginTurn { player: PlayerId },
    CreateToken { object_id: ObjectId },
    PlaceCounters { target: CounterTarget, kind: CounterKind, count: u32 },
}

/// What applies to an object entering the battlefield.
#[derive(Clone, Debug, Default)]
pub struct EtbReplacements {
    /// Counters to add as it enters, in application order.
    pub additional_counters: Vec<(CounterKind, u32)>,
    pub enter_tapped: bool,
    pub exile_instead: bool,
}

/// Result of the die pipeline.
#[derive(Clone, Copy, Debug, PartialEq, Eq, Structural)]
pub enum DieOutcome {
    StillDies,
    ExileInstead,
    /// Regenerate: clear damage, tap, leave combat; stays on the battlefield.
    Regenerated,
}

// =============================================================================
// Matching
// =============================================================================

/// The damage target as a target choice.
pub open spec fn damage_choice(t: DamageTarget) -> TargetChoice {
    match t {
        DamageTarget::Object(id) => TargetChoice::Object(id),
        DamageTarget::Player(p) => TargetChoice::Player(p),
    }
}

/// The filter applied to `id` when it is present.
pub open spec fn object_passes(
    f: ObjectFilter,
    id: ObjectId,
    objects: Map<ObjectId, GameObject>,
    effects: Seq<ContinuousEffect>,
    you: PlayerId,
) -> bool {
    objects.contains_key(id) && f.spec_matches(objects[id], effects, you)
}

impl ReplacementCondition {
    /// Does the condition match the event, with `sc` (the controller of the
    /// replacement's source) as "you"?
    pub open spec fn spec_matches(
        self,
        event: ReplacementEvent,
        sc: PlayerId,
        objects: Map<ObjectId, GameObject>,
        effects: Seq<ContinuousEffect>,
    ) -> bool {
        match (self, event) {
            (
                ReplacementCondition::WouldDealDamage { source_filter, target_filter },
                ReplacementEvent::Damage { source, target, amount },
            ) => {
                &&& (if objects.contains_key(source) {
                    source_filter.spec_matches(objects[source], effects, sc)
                } else {
                    spec_matches_by_default(source_filter)
                })
                &&& target_filter.spec_matches(damage_choice(target), objects, effects, sc)
            },
            (
                ReplacementCondition::WouldDealDamageToSpecific { target: shielded },
                ReplacementEvent::Damage { source, target, amount },
            ) => shielded == target,
            (
                ReplacementCondition::WouldEnterBattlefield { object_filter },
                ReplacementEvent::EnterBattlefield { object_id },
            ) => object_passes(object_filter, object_id, objects, effects, sc),
            (ReplacementCondition::WouldDie { object_filter }, ReplacementEvent::Die { object_id }) => object_passes(
                object_filter,
                object_id,
                objects,
                effects,
                sc,
            ),
            (
                ReplacementCondition::WouldDieSpecific { object_id: shielded },
                ReplacementEvent::Die { object_id },
            ) => shielded == object_id,
            (
                ReplacementCondition::WouldBeCountered { spell_filter },
                ReplacementEvent::CounterSpell { stack_entry_id },
            ) => object_passes(spell_filter, stack_entry_id, objects, effects, sc),
            (ReplacementCondition::WouldDrawCard { player }, ReplacementEvent::DrawCard { player: p }) => spec_controller_ok(
                player,
                p,
                sc,
            ),
            (ReplacementCondition::WouldBeginTurn { player: p1 }, ReplacementEvent::BeginTurn { player: p2 }) => p1
                == p2,
            (
                ReplacementCondition::WouldCreateToken { token_filter },
                ReplacementEvent::CreateToken { object_id },
            ) => object_passes(token_filter, object_id, objects, effects, sc),
            (
                ReplacementCondition::WouldPlaceCounters { object_filter, kinds },
                ReplacementEvent::PlaceCounters { target, kind, count },
            ) => {
                &&& spec_kind_filter(kinds, kind)
                &&& match target {
                    CounterTarget::Object(id) => object_passes(object_filter, id, objects, effects, sc),
                    CounterTarget::Player(_) => false,
                }
            },
            _ => false,
        }
    }

    /// Does this condition match the in-flight event? `source_controller`
    /// is "you" inside the condition's filters.
    pub fn matches(&self, event: &ReplacementEvent, source_controller: PlayerId, state: &GameState) -> (b: bool)
        requires
            state.objects.wf(),
        ensures
            b == self.spec_matches(*event, source_controller, state.objects@, state.continuous_effects@),
    {
        let sc = source_controller;
        match (self, event) {
            (
                ReplacementCondition::WouldDealDamage { source_filter, target_filter },
                ReplacementEvent::Damage { source, target, amount: _ },
            ) => {
                let src_ok = match state.objects.get(*source) {
                    Some(o) => source_filter.matches(o, state, sc),
                    None => source_filter_matches_by_default(source_filter),
                };
                if !src_ok {
                    return false;
                }
                let choice = match target {
                    DamageTarget::Object(id) => TargetChoice::Object(*id),
                    DamageTarget::Player(p) => TargetChoice::Player(*p),
                };
                target_filter.matches(&choice, state, sc)
            },
            (
                ReplacementCondition::WouldDealDamageToSpecific { target: shielded },
                ReplacementEvent::Damage { source: _, target, amount: _ },
            ) => *shielded == *target,
            (
                ReplacementCondition::WouldEnterBattlefield { object_filter },
                ReplacementEvent::EnterBattlefield { object_id },
            ) => object_passes_exec(object_filter, *object_id, state, sc),
            (ReplacementCondition::WouldDie { object_filter }, ReplacementEvent::Die { object_id }) => object_passes_exec(
                object_filter,
                *object_id,
                state,
                sc,
            ),
            (
                ReplacementCondition::WouldDieSpecific { object_id: shielded },
                ReplacementEvent::Die { object_id },
            ) => *shielded == *object_id,
            (
                ReplacementCondition::WouldBeCountered { spell_filter },
                ReplacementEvent::CounterSpell { stack_entry_id },
            ) => object_passes_exec(spell_filter, *stack_entry_id, state, sc),
            (ReplacementCondition::WouldDrawCard { player }, ReplacementEvent::DrawCard { player: p }) => player.matches(
                *p,
                sc,
            ),
            (ReplacementCondition::WouldBeginTurn { player: p1 }, ReplacementEvent::BeginTurn { player: p2 }) => *p1
                == *p2,
            (
                ReplacementCondition::WouldCreateToken { token_filter },
                ReplacementEvent::CreateToken { object_id },
            ) => object_passes_exec(token_filter, *object_id, state, sc),
            (
                ReplacementCondition::WouldPlaceCounters { object_filter, kinds },
                ReplacementEvent::PlaceCounters { target, kind, count: _ },
            ) => {
                if !kinds.matches(*kind) {
                    return false;
                }
                match target {
                    CounterTarget::Object(id) => object_passes_exec(object_filter, *id, state, sc),
                    CounterTarget::Player(_) => false,
                }
            },
            _ => false,
        }
    }
}

fn object_passes_exec(f: &ObjectFilter, id: ObjectId, state: &GameState, you: PlayerId) -> (b: bool)
    requires
        state.objects.wf(),
    ensures
        b == object_passes(*f, id, state.objects@, state.continuous_effects@, you),
{
    match state.objects.get(id) {
        Some(o) => f.matches(o, state, you),
        None => false,
    }
}

/// The controller of the replacement's source, or 0 once it is gone.
pub open spec fn src_ctrl(e: ReplacementEffect, objects: Map<ObjectId, GameObject>) -> PlayerId {
    if objects.contains_key(e.source) {
        objects[e.source].controller
    } else {
        0
    }
}

fn source_controller_of(e: &ReplacementEffect, state: &GameState) -> (p: PlayerId)
    requires
        state.objects.wf(),
    ensures
        p == src_ctrl(*e, state.objects@),
{
    match state.objects.get(e.source) {
        Some(o) => o.controller,
        None => 0,
    }
}

// =============================================================================
// The pipeline
// =============================================================================

/// Everything the pipeline reads from the game.
pub struct PipelineView {
    pub effects: Seq<ReplacementEffect>,
    pub objects: Map<ObjectId, GameObject>,
    pub continuous: Seq<ContinuousEffect>,
}

pub open spec fn view_of(s: GameState) -> PipelineView {
    PipelineView {
        effects: s.replacement_effects@,
        objects: s.objects@,
        continuous: s.continuous_effects@,
    }
}

/// Effect `e` has not been used yet and matches `ev`.
pub open spec fn applies(v: PipelineView, e: ReplacementEffect, used: Set<u64>, ev: ReplacementEvent) -> bool {
    !used.contains(e.id) && e.condition.spec_matches(ev, src_ctrl(e, v.objects), v.objects, v.continuous)
}

/// First index at or after `k` whose effect applies (and is a
/// self-replacement, when `self_only`).
pub open spec fn first_from(v: PipelineView, used: Set<u64>, ev: ReplacementEvent, k: int, self_only: bool) -> Option<int>
    decreases v.effects.len() - k,
{
    if k < 0 || k >= v.effects.len() {
        None
    } else if applies(v, v.effects[k], used, ev) && (!self_only || v.effects[k].is_self_replacement) {
        Some(k)
    } else {
        first_from(v, used, ev, k + 1, self_only)
    }
}

/// The replacement to apply next: the first applicable self-replacement,
/// else the first applicable effect.
pub open spec fn pick(v: PipelineView, used: Set<u64>, ev: ReplacementEvent) -> Option<int> {
    match first_from(v, used, ev, 0, true) {
        Some(i) => Some(i),
        None => first_from(v, used, ev, 0, false),
    }
}

pub open spec fn sat_sub(a: u32, b: u32) -> u32 {
    if a < b { 0 } else { (a - b) as u32 }
}

pub open spec fn sat_add(a: u32, b: u32) -> u32 {
    if a + b > u32::MAX { u32::MAX } else { (a + b) as u32 }
}

pub open spec fn sat_mul(a: u32, b: u32) -> u32 {
    if a * b > u32::MAX { u32::MAX } else { (a * b) as u32 }
}

/// One replacement applied to one event; `None` cancels the event.
pub open spec fn spec_apply(kind: ReplacementKind, ev: ReplacementEvent) -> Option<ReplacementEvent> {
    match (kind, ev) {
        (ReplacementKind::PreventAllDamage, ReplacementEvent::Damage { .. }) => None,
        (ReplacementKind::PreventDamageUpTo(n), ReplacementEvent::Damage { source, target, amount }) => {
            let a = sat_sub(amount, n);
            if a == 0 {
                None
            } else {
                Some(ReplacementEvent::Damage { source, target, amount: a })
            }
        },
        (ReplacementKind::DoubleDamage, ReplacementEvent::Damage { source, target, amount }) => Some(
            ReplacementEvent::Damage { source, target, amount: sat_mul(amount, 2) },
        ),
        (ReplacementKind::RedirectDamageTo(t), ReplacementEvent::Damage { source, target, amount }) => Some(
            ReplacementEvent::Damage { source, target: t, amount },
        ),
        (ReplacementKind::SkipDraw, ReplacementEvent::DrawCard { .. }) => None,
        (ReplacementKind::AddAdditionalCounters(m), ReplacementEvent::PlaceCounters { target, kind, count }) => Some(
            ReplacementEvent::PlaceCounters { target, kind, count: sat_add(count, m) },
        ),
        (ReplacementKind::MultiplyCounters(m), ReplacementEvent::PlaceCounters { target, kind, count }) => {
            let c = sat_mul(count, m);
            if c == 0 {
                None
            } else {
                Some(ReplacementEvent::PlaceCounters { target, kind, count: c })
            }
        },
        _ => Some(ev),
    }
}

/// Effects whose id is still unused.
pub open spec fn unused_count(v: PipelineView, used: Set<u64>) -> nat {
    count_where(v.effects, |e: ReplacementEffect| !used.contains(e.id))
}

pub proof fn lemma_first_from(v: PipelineView, used: Set<u64>, ev: ReplacementEvent, k: int, self_only: bool)
    requires
        0 <= k,
    ensures
        first_from(v, used, ev, k, self_only) matches Some(i) ==> k <= i < v.effects.len() && applies(
            v,
            v.effects[i],
            used,
            ev,
        ) && (!self_only || v.effects[i].is_self_replacement),
        first_from(v, used, ev, k, self_only) is None ==> forall|j: int|
            k <= j < v.effects.len() && 0 <= j ==> !(applies(v, v.effects[j], used, ev) && (!self_only
                || v.effects[j].is_self_replacement)),
    decreases v.effects.len() - k,
{
    if k >= v.effects.len() {
    } else if applies(v, v.effects[k], used, ev) && (!self_only || v.effects[k].is_self_replacement) {
    } else {
        lemma_first_from(v, used, ev, k + 1, self_only);
    }
}

/// Using the picked effect lowers the number of unused effects.
pub proof fn lemma_pick_progress(v: PipelineView, used: Set<u64>, ev: ReplacementEvent, i: int)
    requires
        0 <= i < v.effects.len(),
        applies(v, v.effects[i], used, ev),
    ensures
        unused_count(v, used.insert(v.effects[i].id)) < unused_count(v, used),
{
    let p = |e: ReplacementEffect| !used.contains(e.id);
    let q = |e: ReplacementEffect| !used.insert(v.effects[i].id).contains(e.id);
    lemma_count_stronger_strict(v.effects, p, q, i);
}

/// The event after every applicable replacement has been applied once;
/// `None` when one of them cancels it.
pub open spec fn spec_run(v: PipelineView, used: Set<u64>, ev: ReplacementEvent) -> Option<ReplacementEvent>
    decreases unused_count(v, used),
{
    match pick(v, used, ev) {
        None => Some(ev),
        Some(i) => {
            if 0 <= i < v.effects.len() && applies(v, v.effects[i], used, ev) {
                proof {
                    lemma_pick_progress(v, used, ev, i);
                }
                match spec_apply(v.effects[i].kind, ev) {
                    None => None,
                    Some(ev2) => spec_run(v, used.insert(v.effects[i].id), ev2),
                }
            } else {
                Some(ev)
            }
        },
    }
}

/// Post-replacement damage; `None` when prevented.
pub open spec fn spec_replace_damage(v: PipelineView, source: ObjectId, target: DamageTarget, amount: u32) -> Option<
    (ObjectId, DamageTarget, u32),
> {
    match spec_run(v, Set::empty(), ReplacementEvent::Damage { source, target, amount }) {
        Some(ReplacementEvent::Damage { source, target, amount }) => Some((source, target, amount)),
        _ => None,
    }
}

/// A shield on one damage target matches damage to that target and to
/// no other, whatever the source and amount.
pub proof fn law_damage_shield_guards_only_its_target(
    shielded: DamageTarget,
    source: ObjectId,
    target: DamageTarget,
    amount: u32,
    sc: PlayerId,
    objects: Map<ObjectId, GameObject>,
    effects: Seq<ContinuousEffect>,
)
    ensures
        (ReplacementCondition::WouldDealDamageToSpecific { target: shielded }).spec_matches(
            ReplacementEvent::Damage { source, target, amount },
            sc,
            objects,
            effects,
        ) <==> shielded == target,
{
}

/// A "this one would die" condition matches that object's death and no
/// other; a "would begin a turn" condition matches that player's turn and
/// no other.
pub proof fn law_specific_conditions_match_only_their_subject(
    shielded: ObjectId,
    dying: ObjectId,
    p1: PlayerId,
    p2: PlayerId,
    sc: PlayerId,
    objects: Map<ObjectId, GameObject>,
    effects: Seq<ContinuousEffect>,
)
    ensures
        (ReplacementCondition::WouldDieSpecific { object_id: shielded }).spec_matches(
            ReplacementEvent::Die { object_id: dying },
            sc,
            objects,
            effects,
        ) <==> shielded == dying,
        (ReplacementCondition::WouldBeginTurn { player: p1 }).spec_matches(
            ReplacementEvent::BeginTurn { player: p2 },
            sc,
            objects,
            effects,
        ) <==> p1 == p2,
{
}

/// Damage to a target that none of the shields in force guards goes
/// through unchanged.
pub proof fn law_shields_elsewhere_let_damage_through(
    v: PipelineView,
    source: ObjectId,
    target: DamageTarget,
    amount: u32,
)
    requires
        forall|i: int|
            0 <= i < v.effects.len() ==> ((#[trigger] v.effects[i]).condition matches ReplacementCondition::WouldDealDamageToSpecific {
                target: shielded,
            } && shielded != target),
    ensures
        spec_replace_damage(v, source, target, amount) == Some((source, target, amount)),
{
    let ev = ReplacementEvent::Damage { source, target, amount };
    assert forall|j: int| 0 <= j < v.effects.len() implies !applies(v, v.effects[j], Set::empty(), ev) by {
        let e = v.effects[j];
    }
    lemma_first_from(v, Set::empty(), ev, 0, true);
    lemma_first_from(v, Set::empty(), ev, 0, false);
    assert(pick(v, Set::empty(), ev) is None);
}

/// A shield that prevents all damage to a target, alone in force, prevents
/// damage to that target from any source.
pub proof fn law_prevention_shield_prevents_its_target(
    v: PipelineView,
    source: ObjectId,
    target: DamageTarget,
    amount: u32,
)
    requires
        v.effects.len() == 1,
        v.effects[0].condition == (ReplacementCondition::WouldDealDamageToSpecific { target }),
        v.effects[0].kind == ReplacementKind::PreventAllDamage,
    ensures
        spec_replace_damage(v, source, target, amount) is None,
{
    let ev = ReplacementEvent::Damage { source, target, amount };
    assert(applies(v, v.effects[0], Set::empty(), ev));
    if v.effects[0].is_self_replacement {
        assert(first_from(v, Set::empty(), ev, 0, true) == Some(0int));
    } else {
        assert(first_from(v, Set::empty(), ev, 1, true) is None);
        assert(first_from(v, Set::empty(), ev, 0, true) is None);
        assert(first_from(v, Set::empty(), ev, 0, false) == Some(0int));
    }
    assert(pick(v, Set::empty(), ev) == Some(0int));
}

/// Post-replacement counter placement; `None` when nothing is placed.
pub open spec fn spec_placed(v: PipelineView, target: CounterTarget, kind: CounterKind, count: u32) -> Option<
    (CounterTarget, CounterKind, u32),
> {
    if count == 0 {
        None
    } else {
        match spec_run(v, Set::empty(), ReplacementEvent::PlaceCounters { target, kind, count }) {
            Some(ReplacementEvent::PlaceCounters { target, kind, count }) => if count == 0 {
                None
            } else {
                Some((target, kind, count))
            },
            _ => None,
        }
    }
}

fn apply_kind_to_event(kind: &ReplacementKind, event: &ReplacementEvent) -> (r: Option<ReplacementEvent>)
    ensures
        r == spec_apply(*kind, *event),
{
    match (kind, event) {
        (ReplacementKind::PreventAllDamage, ReplacementEvent::Damage { .. }) => None,
        (ReplacementKind::PreventDamageUpTo(n), ReplacementEvent::Damage { source, target, amount }) => {
            let a = amount.saturating_sub(*n);
            if a == 0 {
                None
            } else {
                Some(ReplacementEvent::Damage { source: *source, target: *target, amount: a })
            }
        },
        (ReplacementKind::DoubleDamage, ReplacementEvent::Damage { source, target, amount }) => Some(
            ReplacementEvent::Damage { source: *source, target: *target, amount: saturating_mul_u32(*amount, 2) },
        ),
        (ReplacementKind::RedirectDamageTo(t), ReplacementEvent::Damage { source, target: _, amount }) => Some(
            ReplacementEvent::Damage { source: *source, target: *t, amount: *amount },
        ),
        (ReplacementKind::SkipDraw, ReplacementEvent::DrawCard { .. }) => None,
        (
            ReplacementKind::AddAdditionalCounters(m),
            ReplacementEvent::PlaceCounters { target, kind, count },
        ) => Some(ReplacementEvent::PlaceCounters { target: *target, kind: *kind, count: count.saturating_add(*m) }),
        (ReplacementKind::MultiplyCounters(m), ReplacementEvent::PlaceCounters { target, kind, count }) => {
            let c = saturating_mul_u32(*count, *m);
            if c == 0 {
                None
            } else {
                Some(ReplacementEvent::PlaceCounters { target: *target, kind: *kind, count: c })
            }
        },
        _ => Some(*event),
    }
}

fn saturating_mul_u32(a: u32, b: u32) -> (r: u32)
    ensures
        r == sat_mul(a, b),
{
    proof {
        assert((a as int) * (b as int) <= 0xffff_ffff * 0xffff_ffff) by (nonlinear_arith)
            requires
                a <= 0xffff_ffff,
                b <= 0xffff_ffff,
        ;
    }
    let w = (a as u64) * (b as u64);
    if w > u32::MAX as u64 {
        u32::MAX
    } else {
        w as u32
    }
}

fn id_used(used: &Vec<u64>, id: u64) -> (b: bool)
    ensures
        b == used@.contains(id),
{
    let mut i: usize = 0;
    while i < used.len()
        invariant
            i <= used@.len(),
            forall|j: int| 0 <= j < i ==> used@[j] != id,
        decreases used@.len() - i,
    {
        if used[i] == id {
            return true;
        }
        i = i + 1;
    }
    false
}

impl GameState {
    /// Register a replacement effect, giving it a fresh id.
    pub fn add_replacement_effect(&mut self, effect: ReplacementEffect)
        requires
            old(self).timestamp < u64::MAX,
        ensures
            final(self).replacement_effects@ == old(self).replacement_effects@.push(
                ReplacementEffect { id: old(self).timestamp, ..effect },
            ),
            *final(self) == (GameState {
                replacement_effects: final(self).replacement_effects,
                timestamp: (old(self).timestamp + 1) as u64,
                ..*old(self)
            }),
    {
        let id = self.next_timestamp();
        let mut e = effect;
        e.id = id;
        self.replacement_effects.push(e);
    }

    /// Remove every replacement effect for which `pred` holds; returns how
    /// many were removed. The others keep their order.
    pub fn remove_replacement_effects<F: Fn(&ReplacementEffect) -> bool>(&mut self, pred: F) -> (n: usize)
        requires
            forall|e: &ReplacementEffect| #[trigger] pred.requires((e,)),
        ensures
            exists|dropped: Seq<bool>|
                #![trigger dropped.len()]
                dropped.len() == old(self).replacement_effects@.len() && (forall|i: int|
                    0 <= i < dropped.len() ==> #[trigger] pred.ensures(
                        (&old(self).replacement_effects@[i],),
                        dropped[i],
                    )) && final(self).replacement_effects@ == select(old(self).replacement_effects@, dropped),
            n == old(self).replacement_effects@.len() - final(self).replacement_effects@.len(),
            *final(self) == (GameState { replacement_effects: final(self).replacement_effects, ..*old(self) }),
    {
        let mut kept: Vec<ReplacementEffect> = Vec::new();
        let ghost mut dropped: Seq<bool> = Seq::empty();
        let mut i: usize = 0;
        while i < self.replacement_effects.len()
            invariant
                i <= self.replacement_effects@.len(),
                forall|e: &ReplacementEffect| #[trigger] pred.requires((e,)),
                dropped.len() == i,
                forall|j: int| 0 <= j < i ==> #[trigger] pred.ensures((&self.replacement_effects@[j],), dropped[j]),
                kept@ == select(self.replacement_effects@.take(i as int), dropped),
                kept@.len() <= i,
            decreases self.replacement_effects@.len() - i,
        {
            let e = self.replacement_effects[i];
            let drop = pred(&e);
            proof {
                lemma_select_push(self.replacement_effects@.take(i as int), dropped, e, drop);
                assert(self.replacement_effects@.take(i + 1) =~= self.replacement_effects@.take(i as int).push(e));
                dropped = dropped.push(drop);
            }
            if !drop {
                kept.push(e);
            }
            proof {
                lemma_select_len(self.replacement_effects@.take(i + 1), dropped);
            }
            i = i + 1;
        }
        proof {
            assert(self.replacement_effects@.take(i as int) =~= self.replacement_effects@);
        }
        let before = self.replacement_effects.len();
        let after = kept.len();
        self.replacement_effects = kept;
        before - after
    }

    /// Drop the end-of-turn replacement effects (cleanup, CR 514.2).
    pub fn expire_end_of_turn_replacements(&mut self)
        ensures
            final(self).replacement_effects@ == old(self).replacement_effects@.filter(
                |e: ReplacementEffect| e.duration != ReplacementDuration::EndOfTurn,
            ),
            *final(self) == (GameState { replacement_effects: final(self).replacement_effects, ..*old(self) }),
    {
        let ghost p = |e: ReplacementEffect| e.duration != ReplacementDuration::EndOfTurn;
        let mut kept: Vec<ReplacementEffect> = Vec::new();
        let mut i: usize = 0;
        while i < self.replacement_effects.len()
            invariant
                i <= self.replacement_effects@.len(),
                p == (|e: ReplacementEffect| e.duration != ReplacementDuration::EndOfTurn),
                kept@ == self.replacement_effects@.take(i as int).filter(p),
            decreases self.replacement_effects@.len() - i,
        {
            let e = self.replacement_effects[i];
            proof {
                assert(self.replacement_effects@.take(i + 1) =~= self.replacement_effects@.take(i as int).push(e));
                self.replacement_effects@.take(i as int).lemma_filter_push(e, p);
            }
            if e.duration != ReplacementDuration::EndOfTurn {
                kept.push(e);
            }
            i = i + 1;
        }
        proof {
            assert(self.replacement_effects@.take(i as int) =~= self.replacement_effects@);
        }
        self.replacement_effects = kept;
    }

    /// Drop the "while the source is on the battlefield" effects of
    /// `source`.
    pub fn expire_replacements_from_source(&mut self, source: ObjectId)
        ensures
            final(self).replacement_effects@ == old(self).replacement_effects@.filter(
                |e: ReplacementEffect|
                    !(e.source == source && e.duration == ReplacementDuration::WhileSourceOnBattlefield),
            ),
            *final(self) == (GameState { replacement_effects: final(self).replacement_effects, ..*old(self) }),
    {
        let ghost p = |e: ReplacementEffect|
            !(e.source == source && e.duration == ReplacementDuration::WhileSourceOnBattlefield);
        let mut kept: Vec<ReplacementEffect> = Vec::new();
        let mut i: usize = 0;
        while i < self.replacement_effects.len()
            invariant
                i <= self.replacement_effects@.len(),
                p == (|e: ReplacementEffect|
                    !(e.source == source && e.duration == ReplacementDuration::WhileSourceOnBattlefield)),
                kept@ == self.replacement_effects@.take(i as int).filter(p),
            decreases self.replacement_effects@.len() - i,
        {
            let e = self.replacement_effects[i];
            proof {
                assert(self.replacement_effects@.take(i + 1) =~= self.replacement_effects@.take(i as int).push(e));
                self.replacement_effects@.take(i as int).lemma_filter_push(e, p);
            }
            if !(e.source == source && e.duration == ReplacementDuration::WhileSourceOnBattlefield) {
                kept.push(e);
            }
            i = i + 1;
        }
        proof {
            assert(self.replacement_effects@.take(i as int) =~= self.replacement_effects@);
        }
        self.replacement_effects = kept;
    }

    /// First index `>= k` whose effect applies to `ev` (and is a
    /// self-replacement when `self_only`).
    fn first_applicable(&self, used: &Vec<u64>, ev: &ReplacementEvent, self_only: bool) -> (r: Option<usize>)
        requires
            self.objects.wf(),
        ensures
            r matches Some(i) ==> Some(i as int) == first_from(view_of(*self), used@.to_set(), *ev, 0, self_only),
            r is None ==> first_from(view_of(*self), used@.to_set(), *ev, 0, self_only) is None,
    {
        let ghost v = view_of(*self);
        let ghost us = used@.to_set();
        let mut i: usize = 0;
        while i < self.replacement_effects.len()
            invariant
                self.objects.wf(),
                v == view_of(*self),
                us == used@.to_set(),
                i <= self.replacement_effects@.len(),
                first_from(v, us, *ev, 0, self_only) == first_from(v, us, *ev, i as int, self_only),
            decreases self.replacement_effects@.len() - i,
        {
            let e = &self.replacement_effects[i];
            let fresh = !id_used(used, e.id);
            let ok = fresh && (!self_only || e.is_self_replacement) && {
                let sc = source_controller_of(e, self);
                e.condition.matches(ev, sc, self)
            };
            proof {
                assert(used@.contains(e.id) == us.contains(e.id));
            }
            if ok {
                return Some(i);
            }
            i = i + 1;
        }
        None
    }

    /// Run `ev` through every applicable replacement, each at most once.
    pub fn run_replacements(&self, ev: ReplacementEvent) -> (r: Option<ReplacementEvent>)
        requires
            self.objects.wf(),
        ensures
            r == spec_run(view_of(*self), Set::empty(), ev),
    {
        let ghost v = view_of(*self);
        let mut current = ev;
        let mut used: Vec<u64> = Vec::new();
        proof {
            assert(used@.to_set() =~= Set::<u64>::empty());
        }
        loop
            invariant
                self.objects.wf(),
                v == view_of(*self),
                spec_run(v, used@.to_set(), current) == spec_run(v, Set::empty(), ev),
            decreases unused_count(v, used@.to_set()),
        {
            let first_self = self.first_applicable(&used, &current, true);
            let pick_i = match first_self {
                Some(i) => Some(i),
                None => self.first_applicable(&used, &current, false),
            };
            match pick_i {
                None => {
                    return Some(current);
                },
                Some(i) => {
                    proof {
                        lemma_first_from(v, used@.to_set(), current, 0, true);
                        lemma_first_from(v, used@.to_set(), current, 0, false);
                        assert(pick(v, used@.to_set(), current) == Some(i as int));
                        lemma_pick_progress(v, used@.to_set(), current, i as int);
                    }
                    let kind = self.replacement_effects[i].kind;
                    let id = self.replacement_effects[i].id;
                    let ghost before = used@;
                    used.push(id);
                    proof {
                        assert forall|y: u64| #[trigger] used@.to_set().contains(y) <==> before.to_set().insert(id).contains(y) by {
                            if used@.contains(y) {
                                let k = choose|k: int| 0 <= k < used@.len() && used@[k] == y;
                                if k < before.len() {
                                    assert(before[k] == y);
                                    assert(before.contains(y));
                                }
                            }
                            if before.contains(y) {
                                let k = choose|k: int| 0 <= k < before.len() && before[k] == y;
                                assert(used@[k] == y);
                                assert(used@.contains(y));
                            }
                            if y == id {
                                assert(used@[before.len() as int] == id);
                                assert(used@.contains(y));
                            }
                        }
                        assert(used@.to_set() =~= before.to_set().insert(id));
                    }
                    match apply_kind_to_event(&kind, &current) {
                        None => {
                            return None;
                        },
                        Some(next) => {
                            current = next;
                        },
                    }
                },
            }
        }
    }

    /// Route damage through the replacement effects; `None` when it is
    /// fully prevented.
    pub fn replace_damage(&self, source: ObjectId, target: DamageTarget, amount: u32) -> (r: Option<
        (ObjectId, DamageTarget, u32),
    >)
        requires
            self.objects.wf(),
        ensures
            r == spec_replace_damage(view_of(*self), source, target, amount),
    {
        match self.run_replacements(ReplacementEvent::Damage { source, target, amount }) {
            Some(ReplacementEvent::Damage { source, target, amount }) => Some((source, target, amount)),
            _ => None,
        }
    }
}

/// A counter placement stays a placement of the same kind on the same
/// target through the pipeline; only the number changes.
pub proof fn lemma_run_placement(v: PipelineView, used: Set<u64>, t: CounterTarget, k: CounterKind, c: u32)
    ensures
        spec_run(v, used, ReplacementEvent::PlaceCounters { target: t, kind: k, count: c }) matches Some(ev) ==> (
        ev matches ReplacementEvent::PlaceCounters { target, kind, count } && target == t && kind == k),
    decreases unused_count(v, used),
{
    let ev = ReplacementEvent::PlaceCounters { target: t, kind: k, count: c };
    match pick(v, used, ev) {
        None => {},
        Some(i) => {
            if 0 <= i < v.effects.len() && applies(v, v.effects[i], used, ev) {
                lemma_pick_progress(v, used, ev, i);
                match spec_apply(v.effects[i].kind, ev) {
                    None => {},
                    Some(ev2) => {
                        match ev2 {
                            ReplacementEvent::PlaceCounters { target, kind, count } => {
                                lemma_run_placement(v, used.insert(v.effects[i].id), t, k, count);
                            },
                            _ => {},
                        }
                    },
                }
            }
        },
    }
}

/// Counters of kind `k` on object `id` can take `c` more; a player target
/// is a valid seat whose tracked counters can take `c` more.
pub open spec fn placeable(s: GameState, t: CounterTarget, k: CounterKind, c: u32) -> bool {
    match t {
        CounterTarget::Object(id) => s.objects@.contains_key(id) ==> s.objects@[id].counters.count(k) + c <= u32::MAX,
        CounterTarget::Player(p) => {
            &&& p < s.players@.len()
            &&& (k == CounterKind::Poison ==> s.players@[p as int].poison_counters + c <= u32::MAX)
            &&& (k == CounterKind::Energy ==> s.players@[p as int].energy + c <= u32::MAX)
        },
    }
}

/// Does a damage-source filter accept a source that no longer exists?
/// Only when it sets none of the conditions on the source's types,
/// colors, subtypes, controller, mana value, power, toughness, name,
/// token-ness and counters (and does not reject everything).
pub open spec fn spec_matches_by_default(f: ObjectFilter) -> bool {
    &&& f.types is None
    &&& f.not_types is None
    &&& f.colors is None
    &&& f.subtypes is None
    &&& f.controller is None
    &&& f.cmc_condition is None
    &&& f.power_condition is None
    &&& f.toughness_condition is None
    &&& f.name is None
    &&& f.is_token is None
    &&& f.has_counter is None
    &&& !f.matches_nothing
}

fn source_filter_matches_by_default(f: &ObjectFilter) -> (b: bool)
    ensures
        b == spec_matches_by_default(*f),
{
    f.types.is_none() && f.not_types.is_none() && f.colors.is_none() && f.subtypes.is_none()
        && f.controller.is_none() && f.cmc_condition.is_none() && f.power_condition.is_none()
        && f.toughness_condition.is_none() && f.name.is_none() && f.is_token.is_none()
        && f.has_counter.is_none() && !f.matches_nothing
}

/// Does effect `e` apply to object `id` entering the battlefield?
pub open spec fn etb_applies(v: PipelineView, e: ReplacementEffect, id: ObjectId) -> bool {
    e.condition.spec_matches(ReplacementEvent::EnterBattlefield { object_id: id }, src_ctrl(e, v.objects), v.objects, v.continuous)
}

fn effect_key_of(e: &ReplacementEffect) -> (k: u128)
    ensures
        k == effect_key(*e),
{
    let base: u128 = if e.is_self_replacement {
        0
    } else {
        0x1_0000_0000_0000_0000
    };
    base + (e.id as u128)
}

/// Order of replacement effects on one event: self-replacements first,
/// then the others; within each, by id.
pub open spec fn effect_key(e: ReplacementEffect) -> u128 {
    ((if e.is_self_replacement {
        0
    } else {
        0x1_0000_0000_0000_0000int
    }) + e.id) as u128
}

/// The effects among the first `upto` of `v.effects` that apply to `id`
/// entering the battlefield, each with its `effect_key`, in storage order.
pub open spec fn etb_keyed(v: PipelineView, upto: int, id: ObjectId) -> Seq<(u128, ReplacementEffect)>
    decreases upto,
{
    if upto <= 0 {
        Seq::empty()
    } else {
        let rest = etb_keyed(v, upto - 1, id);
        let e = v.effects[upto - 1];
        if etb_applies(v, e, id) {
            rest.push((effect_key(e), e))
        } else {
            rest
        }
    }
}

/// The "enters with counters" placements of the effects of `s`, in order.
pub open spec fn counters_in(s: Seq<(u128, ReplacementEffect)>) -> Seq<(CounterKind, u32)>
    decreases s.len(),
{
    if s.len() == 0 {
        Seq::empty()
    } else {
        let rest = counters_in(s.drop_last());
        match s.last().1.kind {
            ReplacementKind::EtbWithCounters { kind, count } => rest.push((kind, count)),
            _ => rest,
        }
    }
}

/// The counters `id` enters with: the "enters with counters" effects that
/// apply to it, self-replacements first, then the others, each by id.
pub open spec fn etb_counter_list(v: PipelineView, id: ObjectId) -> Seq<(CounterKind, u32)> {
    counters_in(sorted_by_key(etb_keyed(v, v.effects.len() as int, id)))
}

/// Some applicable effect makes `id` enter tapped.
pub open spec fn etb_tapped(v: PipelineView, id: ObjectId) -> bool {
    exists|i: int|
        0 <= i < v.effects.len() && etb_applies(v, #[trigger] v.effects[i], id) && v.effects[i].kind
            == ReplacementKind::EtbTapped
}

/// Does effect `e` apply to object `id` dying?
pub open spec fn die_applies(v: PipelineView, e: ReplacementEffect, id: ObjectId) -> bool {
    e.condition.spec_matches(ReplacementEvent::Die { object_id: id }, src_ctrl(e, v.objects), v.objects, v.continuous)
}

/// Kinds that change what dying does.
pub open spec fn die_decisive(k: ReplacementKind) -> bool {
    k == ReplacementKind::ExileInsteadOfDying || k == ReplacementKind::RegenerateShield
}

/// First position at or after `k` of an effect with id `x` in `effs`
/// (`effs.len()` when none).
pub open spec fn first_with_id(effs: Seq<ReplacementEffect>, x: u64, k: int) -> int
    decreases effs.len() - k,
{
    if k < 0 || k >= effs.len() {
        effs.len() as int
    } else if effs[k].id == x {
        k
    } else {
        first_with_id(effs, x, k + 1)
    }
}

pub proof fn lemma_first_with_id(effs: Seq<ReplacementEffect>, x: u64, k: int, j: int)
    requires
        0 <= k <= j < effs.len(),
        effs[j].id == x,
    ensures
        k <= first_with_id(effs, x, k) <= j,
        effs[first_with_id(effs, x, k)].id == x,
    decreases effs.len() - k,
{
    if effs[k].id != x {
        lemma_first_with_id(effs, x, k + 1, j);
    }
}

/// The ids of the effects among the first `upto` of `v.effects` that
/// apply to `id` dying, in storage order, each keyed by the
/// `effect_key` of the first effect with that id.
pub open spec fn die_keyed(v: PipelineView, upto: int, id: ObjectId) -> Seq<(u128, u64)>
    decreases upto,
{
    if upto <= 0 {
        Seq::empty()
    } else {
        let rest = die_keyed(v, upto - 1, id);
        let e = v.effects[upto - 1];
        if die_applies(v, e, id) {
            rest.push((effect_key(v.effects[first_with_id(v.effects, e.id, 0)]), e.id))
        } else {
            rest
        }
    }
}

/// The first id of `s` whose (first) effect is decisive.
pub open spec fn first_decisive(effs: Seq<ReplacementEffect>, s: Seq<(u128, u64)>) -> Option<u64>
    decreases s.len(),
{
    if s.len() == 0 {
        None
    } else if die_decisive(effs[first_with_id(effs, s[0].1, 0)].kind) {
        Some(s[0].1)
    } else {
        first_decisive(effs, s.drop_first())
    }
}

/// Position of the replacement that decides what happens when `id` would
/// die: the applicable effects taken self-replacements first, then the
/// others, each by id; the first "exile instead" or regeneration shield.
pub open spec fn die_pick(v: PipelineView, id: ObjectId) -> Option<int> {
    match first_decisive(v.effects, sorted_by_key(die_keyed(v, v.effects.len() as int, id))) {
        Some(x) => Some(first_with_id(v.effects, x, 0)),
        None => None,
    }
}

proof fn lemma_die_keyed_ids(v: PipelineView, upto: int, id: ObjectId)
    requires
        upto <= v.effects.len(),
    ensures
        forall|t: int|
            0 <= t < die_keyed(v, upto, id).len() ==> exists|j: int|
                0 <= j < v.effects.len() && v.effects[j].id == #[trigger] die_keyed(v, upto, id)[t].1,
    decreases upto,
{
    if upto > 0 {
        lemma_die_keyed_ids(v, upto - 1, id);
        let rest = die_keyed(v, upto - 1, id);
        assert forall|t: int| 0 <= t < die_keyed(v, upto, id).len() implies exists|j: int|
            0 <= j < v.effects.len() && v.effects[j].id == #[trigger] die_keyed(v, upto, id)[t].1 by {
            if t < rest.len() {
                assert(die_keyed(v, upto, id)[t] == rest[t]);
            } else {
                assert(v.effects[upto - 1].id == die_keyed(v, upto, id)[t].1);
            }
        }
    }
}

proof fn lemma_sorted_members<T>(s: Seq<(u128, T)>)
    ensures
        sorted_by_key(s).len() == s.len(),
        forall|t: int| 0 <= t < sorted_by_key(s).len() ==> s.contains(#[trigger] sorted_by_key(s)[t]),
    decreases s.len(),
{
    if s.len() > 0 {
        crate::counting::lemma_first_min_pos(s);
        let m = crate::counting::first_min_pos(s);
        let r = s.remove(m);
        lemma_sorted_members(r);
        assert forall|t: int| 0 <= t < sorted_by_key(s).len() implies s.contains(#[trigger] sorted_by_key(s)[t]) by {
            if t == 0 {
                assert(s[m] == sorted_by_key(s)[0]);
            } else {
                assert(sorted_by_key(s)[t] == sorted_by_key(r)[t - 1]);
                assert(r.contains(sorted_by_key(r)[t - 1]));
                let k = choose|k: int| 0 <= k < r.len() && r[k] == sorted_by_key(r)[t - 1];
                if k < m {
                    assert(s[k] == r[k]);
                } else {
                    assert(s[k + 1] == r[k]);
                }
            }
        }
    }
}

proof fn lemma_first_decisive(effs: Seq<ReplacementEffect>, s: Seq<(u128, u64)>)
    requires
        forall|t: int| 0 <= t < s.len() ==> exists|j: int| 0 <= j < effs.len() && effs[j].id == #[trigger] s[t].1,
    ensures
        first_decisive(effs, s) matches Some(x) ==> ({
            let i = first_with_id(effs, x, 0);
            0 <= i < effs.len() && effs[i].id == x && die_decisive(effs[i].kind)
        }),
    decreases s.len(),
{
    if s.len() > 0 {
        if die_decisive(effs[first_with_id(effs, s[0].1, 0)].kind) {
            assert(exists|j: int| 0 <= j < effs.len() && effs[j].id == s[0].1);
            let j = choose|j: int| 0 <= j < effs.len() && effs[j].id == s[0].1;
            lemma_first_with_id(effs, s[0].1, 0, j);
        } else {
            assert forall|t: int| 0 <= t < s.drop_first().len() implies exists|j: int|
                0 <= j < effs.len() && effs[j].id == #[trigger] s.drop_first()[t].1 by {
                assert(s.drop_first()[t] == s[t + 1]);
            }
            lemma_first_decisive(effs, s.drop_first());
        }
    }
}

/// The deciding replacement is a decisive effect in range.
pub proof fn lemma_die_pick(v: PipelineView, id: ObjectId)
    ensures
        die_pick(v, id) matches Some(i) ==> 0 <= i < v.effects.len() && die_decisive(v.effects[i].kind),
{
    let k = die_keyed(v, v.effects.len() as int, id);
    lemma_die_keyed_ids(v, v.effects.len() as int, id);
    lemma_sorted_members(k);
    let sk = sorted_by_key(k);
    assert forall|t: int| 0 <= t < sk.len() implies exists|j: int| 0 <= j < v.effects.len() && v.effects[j].id == #[trigger] sk[t].1 by {
        assert(k.contains(sk[t]));
        let q = choose|q: int| 0 <= q < k.len() && k[q] == sk[t];
        assert(exists|j: int| 0 <= j < v.effects.len() && v.effects[j].id == k[q].1);
    }
    lemma_first_decisive(v.effects, sk);
}

impl GameState {
    /// Place counters through the replacement effects (Hardened Scales,
    /// Doubling Season, ...) and commit them. Returns the kind and number
    /// placed, or `None` when nothing was placed (zero counters, a
    /// cancelled placement, or a missing object). Player targets only
    /// track poison and energy counters.
    pub fn place_counters(&mut self, target: CounterTarget, kind: CounterKind, count: u32) -> (r: Option<
        (CounterKind, u32),
    >)
        requires
            old(self).objects.wf(),
            spec_placed(view_of(*old(self)), target, kind, count) matches Some((t, k, c)) ==> placeable(
                *old(self),
                t,
                k,
                c,
            ),
        ensures
            final(self).objects.wf(),
            match spec_placed(view_of(*old(self)), target, kind, count) {
                None => r is None && *final(self) == *old(self),
                Some((CounterTarget::Object(id), k, c)) => if old(self).objects@.contains_key(id) {
                    let o = old(self).objects@[id];
                    let n = final(self).objects@[id];
                    &&& r == Some((k, c))
                    &&& n == (GameObject { counters: n.counters, ..o })
                    &&& n.counters.count(k) == o.counters.count(k) + c
                    &&& forall|j: CounterKind| j != k ==> #[trigger] n.counters.count(j) == o.counters.count(j)
                    &&& final(self).objects@ == old(self).objects@.insert(id, n)
                    &&& final(self).objects.ids@ == old(self).objects.ids@
                    &&& final(self).objects.objs@ == old(self).objects.objs@.update(old(self).objects.index_of(id), n)
                    &&& final(self).event_log@ == old(self).event_log@.push(
                        GameEvent::CounterAdded { object_id: id, kind: k, count: c },
                    )
                    &&& *final(self) == (GameState {
                        objects: final(self).objects,
                        event_log: final(self).event_log,
                        ..*old(self)
                    })
                } else {
                    r is None && *final(self) == *old(self)
                },
                Some((CounterTarget::Player(p), k, c)) => {
                    let o = old(self).players@[p as int];
                    &&& r == Some((k, c))
                    &&& final(self).players@ == old(self).players@.update(
                        p as int,
                        if k == CounterKind::Poison {
                            PlayerState { poison_counters: (o.poison_counters + c) as u32, ..o }
                        } else if k == CounterKind::Energy {
                            PlayerState { energy: (o.energy + c) as u32, ..o }
                        } else {
                            o
                        },
                    )
                    &&& *final(self) == (GameState { players: final(self).players, ..*old(self) })
                },
            },
    {
        if count == 0 {
            return None;
        }
        let res = self.run_replacements(ReplacementEvent::PlaceCounters { target, kind, count });
        let (ft, fk, fc) = match res {
            Some(ReplacementEvent::PlaceCounters { target, kind, count }) => (target, kind, count),
            _ => {
                return None;
            },
        };
        if fc == 0 {
            return None;
        }
        match ft {
            CounterTarget::Object(id) => {
                let ghost before = *self;
                match self.objects.get_mut(id) {
                    Some(obj) => {
                        obj.add_counters(fk, fc);
                    },
                    None => {
                        return None;
                    },
                }
                proof {
                    before.objects.lemma_index(id);
                    before.objects.lemma_update(self.objects, id, self.objects.objs@[before.objects.index_of(id)]);
                }
                self.emit(GameEvent::CounterAdded { object_id: id, kind: fk, count: fc });
            },
            CounterTarget::Player(p) => {
                let pl = self.player_mut(p);
                match fk {
                    CounterKind::Poison => {
                        pl.poison_counters = pl.poison_counters + fc;
                    },
                    CounterKind::Energy => {
                        pl.energy = pl.energy + fc;
                    },
                    _ => {},
                }
            },
        }
        Some((fk, fc))
    }

    /// What the replacement effects do to object `object_id` as it enters
    /// the battlefield: counters from self-replacements first, then the
    /// others, each group by id; and whether it enters tapped. Changes
    /// nothing.
    pub fn collect_etb_replacements(&self, object_id: ObjectId) -> (r: EtbReplacements)
        requires
            self.objects.wf(),
        ensures
            r.additional_counters@ == etb_counter_list(view_of(*self), object_id),
            r.enter_tapped == etb_tapped(view_of(*self), object_id),
            !r.exile_instead,
    {
        let ghost v = view_of(*self);
        let ev = ReplacementEvent::EnterBattlefield { object_id };
        let mut keyed: Vec<(u128, ReplacementEffect)> = Vec::new();
        let mut tapped = false;
        let mut i: usize = 0;
        while i < self.replacement_effects.len()
            invariant
                self.objects.wf(),
                v == view_of(*self),
                ev == (ReplacementEvent::EnterBattlefield { object_id }),
                i <= self.replacement_effects@.len(),
                keyed@ == etb_keyed(v, i as int, object_id),
                tapped == exists|j: int|
                    0 <= j < i && etb_applies(v, #[trigger] v.effects[j], object_id) && v.effects[j].kind
                        == ReplacementKind::EtbTapped,
            decreases self.replacement_effects@.len() - i,
        {
            let e = self.replacement_effects[i];
            let sc = source_controller_of(&e, self);
            if e.condition.matches(&ev, sc, self) {
                keyed.push((effect_key_of(&e), e));
                match e.kind {
                    ReplacementKind::EtbTapped => {
                        tapped = true;
                    },
                    _ => {},
                }
            }
            i = i + 1;
        }
        let sorted = sort_by_key_stable(keyed);
        let mut additional: Vec<(CounterKind, u32)> = Vec::new();
        let mut k: usize = 0;
        while k < sorted.len()
            invariant
                k <= sorted@.len(),
                additional@ == counters_in(sorted@.take(k as int)),
            decreases sorted@.len() - k,
        {
            proof {
                assert(sorted@.take(k + 1).drop_last() =~= sorted@.take(k as int));
                assert(sorted@.take(k + 1).last() == sorted@[k as int]);
            }
            match sorted[k].1.kind {
                ReplacementKind::EtbWithCounters { kind, count } => {
                    additional.push((kind, count));
                },
                _ => {},
            }
            k = k + 1;
        }
        proof {
            assert(sorted@.take(k as int) =~= sorted@);
        }
        EtbReplacements { additional_counters: additional, enter_tapped: tapped, exile_instead: false }
    }

    /// Position of the first effect with id `x` (the number of effects
    /// when none has it).
    fn first_effect_with_id(&self, x: u64) -> (r: usize)
        ensures
            r == first_with_id(self.replacement_effects@, x, 0),
            r <= self.replacement_effects@.len(),
    {
        let ghost effs = self.replacement_effects@;
        let mut i: usize = 0;
        while i < self.replacement_effects.len()
            invariant
                effs == self.replacement_effects@,
                i <= effs.len(),
                first_with_id(effs, x, 0) == first_with_id(effs, x, i as int),
            decreases effs.len() - i,
        {
            if self.replacement_effects[i].id == x {
                return i;
            }
            i = i + 1;
        }
        i
    }

    /// Run a would-die event through the replacement effects. The
    /// applicable effects are taken self-replacements first, then the
    /// others, each by id; the first "exile instead" or regeneration
    /// shield decides, and a used shield is removed (every effect with
    /// its id).
    pub fn replace_die(&mut self, object_id: ObjectId) -> (r: DieOutcome)
        requires
            old(self).objects.wf(),
        ensures
            match die_pick(view_of(*old(self)), object_id) {
                None => r == DieOutcome::StillDies && *final(self) == *old(self),
                Some(i) => if old(self).replacement_effects@[i].kind == ReplacementKind::ExileInsteadOfDying {
                    r == DieOutcome::ExileInstead && *final(self) == *old(self)
                } else {
                    &&& r == DieOutcome::Regenerated
                    &&& final(self).replacement_effects@ == old(self).replacement_effects@.filter(
                        |e: ReplacementEffect| e.id != old(self).replacement_effects@[i].id,
                    )
                    &&& *final(self) == (GameState { replacement_effects: final(self).replacement_effects, ..*old(self) })
                },
            },
    {
        let ghost v = view_of(*self);
        let ghost effs = self.replacement_effects@;
        let ev = ReplacementEvent::Die { object_id };
        let mut keyed: Vec<(u128, u64)> = Vec::new();
        let mut i: usize = 0;
        while i < self.replacement_effects.len()
            invariant
                self.objects.wf(),
                *self == *old(self),
                v == view_of(*self),
                effs == self.replacement_effects@,
                ev == (ReplacementEvent::Die { object_id }),
                i <= effs.len(),
                keyed@ == die_keyed(v, i as int, object_id),
            decreases effs.len() - i,
        {
            let e = self.replacement_effects[i];
            let sc = source_controller_of(&e, self);
            if e.condition.matches(&ev, sc, self) {
                let f = self.first_effect_with_id(e.id);
                proof {
                    lemma_first_with_id(effs, e.id, 0, i as int);
                }
                let key = effect_key_of(&self.replacement_effects[f]);
                keyed.push((key, e.id));
            }
            i = i + 1;
        }
        let ghost kd = keyed@;
        let sorted = sort_by_key_stable(keyed);
        proof {
            lemma_die_keyed_ids(v, effs.len() as int, object_id);
            lemma_sorted_members(kd);
            assert forall|t: int| 0 <= t < sorted@.len() implies exists|j: int|
                0 <= j < effs.len() && effs[j].id == #[trigger] sorted@[t].1 by {
                assert(kd.contains(sorted@[t]));
                let q = choose|q: int| 0 <= q < kd.len() && kd[q] == sorted@[t];
                assert(exists|j: int| 0 <= j < effs.len() && effs[j].id == kd[q].1);
            }
            assert(sorted@.skip(0) =~= sorted@);
        }
        let mut k: usize = 0;
        while k < sorted.len()
            invariant
                k <= sorted@.len(),
                *self == *old(self),
                effs == self.replacement_effects@,
                v == view_of(*self),
                sorted@ == sorted_by_key(die_keyed(v, effs.len() as int, object_id)),
                forall|t: int| 0 <= t < sorted@.len() ==> exists|j: int|
                    0 <= j < effs.len() && effs[j].id == #[trigger] sorted@[t].1,
                first_decisive(effs, sorted@) == first_decisive(effs, sorted@.skip(k as int)),
            decreases sorted@.len() - k,
        {
            let x = sorted[k].1;
            let f = self.first_effect_with_id(x);
            proof {
                assert(exists|j: int| 0 <= j < effs.len() && effs[j].id == sorted@[k as int].1);
                let j = choose|j: int| 0 <= j < effs.len() && effs[j].id == sorted@[k as int].1;
                lemma_first_with_id(effs, x, 0, j);
                assert(sorted@.skip(k as int)[0] == sorted@[k as int]);
                assert(sorted@.skip(k as int).drop_first() =~= sorted@.skip(k + 1));
            }
            match self.replacement_effects[f].kind {
                ReplacementKind::ExileInsteadOfDying => {
                    return DieOutcome::ExileInstead;
                },
                ReplacementKind::RegenerateShield => {
                    self.remove_effects_with_id(x);
                    return DieOutcome::Regenerated;
                },
                _ => {},
            }
            k = k + 1;
        }
        proof {
            assert(sorted@.skip(k as int) =~= Seq::<(u128, u64)>::empty());
        }
        DieOutcome::StillDies
    }

    /// Drop every replacement effect with id `id`.
    fn remove_effects_with_id(&mut self, id: u64)
        ensures
            final(self).replacement_effects@ == old(self).replacement_effects@.filter(|e: ReplacementEffect| e.id != id),
            *final(self) == (GameState { replacement_effects: final(self).replacement_effects, ..*old(self) }),
    {
        let ghost p = |e: ReplacementEffect| e.id != id;
        let mut kept: Vec<ReplacementEffect> = Vec::new();
        let mut i: usize = 0;
        while i < self.replacement_effects.len()
            invariant
                i <= self.replacement_effects@.len(),
                p == (|e: ReplacementEffect| e.id != id),
                kept@ == self.replacement_effects@.take(i as int).filter(p),
            decreases self.replacement_effects@.len() - i,
        {
            let e = self.replacement_effects[i];
            proof {
                assert(self.replacement_effects@.take(i + 1) =~= self.replacement_effects@.take(i as int).push(e));
                self.replacement_effects@.take(i as int).lemma_filter_push(e, p);
            }
            if e.id != id {
                kept.push(e);
            }
            i = i + 1;
        }
        proof {
            assert(self.replacement_effects@.take(i as int) =~= self.replacement_effects@);
        }
        self.replacement_effects = kept;
    }
}

/// The elements of `s` whose `dropped` flag is clear.
pub open spec fn select<A>(s: Seq<A>, dropped: Seq<bool>) -> Seq<A>
    decreases s.len(),
{
    if s.len() == 0 || dropped.len() < s.len() {
        Seq::empty()
    } else {
        let rest = select(s.drop_last(), dropped.take(s.len() - 1));
        if dropped[s.len() - 1] {
            rest
        } else {
            rest.push(s.last())
        }
    }
}

proof fn lemma_select_push<A>(s: Seq<A>, dropped: Seq<bool>, x: A, b: bool)
    requires
        dropped.len() == s.len(),
    ensures
        select(s.push(x), dropped.push(b)) == if b {
            select(s, dropped)
        } else {
            select(s, dropped).push(x)
        },
{
    assert(s.push(x).drop_last() =~= s);
    assert(dropped.push(b).take(s.len() as int) =~= dropped);
}

proof fn lemma_select_len<A>(s: Seq<A>, dropped: Seq<bool>)
    requires
        dropped.len() == s.len(),
    ensures
        select(s, dropped).len() <= s.len(),
    decreases s.len(),
{
    if s.len() > 0 {
        lemma_select_len(s.drop_last(), dropped.take(s.len() - 1));
    }
}

} // verus!
