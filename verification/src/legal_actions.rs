//! Legal actions: what the player who has to act can do right now.
//!
//! [`legal_actions`] is the single entry point: nothing once the game is
//! over; the answers to a pending choice; the choices of a special action
//! (mulligans, discarding to hand size, choosing the first player); the
//! combat declaration under way (attackers, CR 508.1; blockers, CR 509.1;
//! the damage-assignment order of multiply-blocked attackers, CR 509.2);
//! otherwise the priority window: pass, concede, land plays, every
//! castable spell with each way its mana cost can be paid, then every
//! activated ability of the player's permanents that can be activated now,
//! in a fixed order (object ids ascending, then ability index). The
//! damage distributions of an attacker over its blockers (CR 510.1c,
//! with deathtouch and trample) are enumerated here too.
//!
//! Attack declarations honour "can't attack", "attacks each combat if
//! able" and goad. What this game state and card registry do not carry
//! plays no part: attack taxes, evasion beyond flying, reach and menace,
//! spell targets and modes, alternative and additional casting costs,
//! cost reductions, casting restrictions, and activations limited to once
//! a turn. Activated abilities that target are not offered here.

use vstd::prelude::*;
use crate::enumeration::{
    lemma_cap_assoc, enumerate_equivalence_subsets, permutations, seq_views, spec_cap, spec_capped, spec_group_subsets, spec_groups,
    spec_permutations, MAX_COMBAT_ENUM,
};
use crate::layers::{ContinuousEffectKind, object_has_keyword, spec_has_keyword};
use crate::objects::{GameObject, ObjectId, spec_raw_toughness};
use crate::priority::SpecialAction;
use crate::mana::{
    ManaPool, enumerate_payment_plans, expanded_components, has_x, plan_pays, spec_has_x, CastingKind, ManaCost, ManaPaymentPlan,
    SpendContext,
};
use crate::counting::{sort_by_key_stable, sorted_by_key};
use crate::registry::{ActivatedAbilityDef, ActivationCost, CardRegistry};
use crate::state::{AttackerInfo, ChoiceKind, CombatPhase, GameState};
use crate::turn::Step;
use crate::types::{CounterKind, KeywordAbility, PlayerId, TypeLine};
use crate::zones::Zone;

verus! {

/// What an attacking creature attacks (CR 508.1b).
#[derive(Clone, Copy, Debug, PartialEq, Eq, Structural)]
pub enum DefendingEntity {
    Player(PlayerId),
    Planeswalker(ObjectId),
    Battle(ObjectId),
}

/// One creature declared as an attacker, with what it attacks.
#[derive(Clone, Copy, Debug, PartialEq, Eq, Structural)]
pub struct AttackerDeclaration {
    pub attacker: ObjectId,
    pub defending: DefendingEntity,
}

/// An answer to a choice the game asks for.
#[derive(Clone, Copy, Debug, PartialEq, Eq, Structural)]
pub enum ChoiceAction {
    ChooseObject(ObjectId),
    ChoosePlayer(PlayerId),
}

/// A decision offered to a player.
#[derive(Clone, Debug, PartialEq, Eq)]
pub enum Action {
    /// Attack with these creatures; none at all is a legal declaration.
    DeclareAttackers { attackers: Vec<AttackerDeclaration> },
    /// Keep the opening hand.
    MulliganKeep,
    /// Shuffle the hand away and draw a new one.
    MulliganAgain,
    /// Answer a pending choice.
    MakeChoice(ChoiceAction),
    /// Put these cards from hand on the bottom of the library (London
    /// mulligan).
    BottomCards(Vec<ObjectId>),
    /// Damage-assignment order of each multiply-blocked attacker
    /// (CR 509.2): the attacker, then its blockers in order.
    OrderBlockers { orderings: Vec<(ObjectId, Vec<ObjectId>)> },
    /// Pass priority.
    PassPriority,
    /// Leave the game (CR 104.3a).
    Concede,
    /// Play a land from hand (CR 305.1).
    PlayLand { object_id: ObjectId },
    /// Cast a spell from hand, paying its cost with `mana_payment`, with
    /// `x_value` for `{X}`.
    CastSpell { object_id: ObjectId, mana_payment: ManaPaymentPlan, x_value: Option<u32> },
    /// Block with these creatures; none at all is a legal declaration.
    DeclareBlockers { blockers: Vec<BlockerDeclaration> },
    /// Answer the pending choice.
    SubmitResolutionChoice { response: ChoiceResponse },
    /// Activate the `ability_index`-th activated ability of `source`,
    /// paying its mana with `mana_payment` (`x_value` for `{X}`) and its
    /// other costs as `additional_costs` lists them.
    ActivateAbility {
        source: ObjectId,
        ability_index: usize,
        mana_payment: ManaPaymentPlan,
        x_value: Option<u32>,
        additional_costs: Vec<AdditionalCostPayment>,
    },
}

/// One creature declared as a blocker, with the attacker it blocks.
#[derive(Clone, Copy, Debug, PartialEq, Eq, Structural)]
pub struct BlockerDeclaration {
    pub blocker: ObjectId,
    pub blocking: ObjectId,
}

/// An answer to a pending choice.
#[derive(Clone, Debug, PartialEq, Eq)]
pub enum ChoiceResponse {
    PickCards { picked: Vec<ObjectId> },
    PayOrDecline { pay: bool },
    YesNo { answer: bool },
}

/// An attacker with the order of its blockers, by value.
pub open spec fn entry_view(x: (ObjectId, Vec<ObjectId>)) -> (ObjectId, Seq<ObjectId>) {
    (x.0, x.1@)
}

/// The orderings of an action, by value.
pub open spec fn ordering_view(v: Seq<(ObjectId, Vec<ObjectId>)>) -> Seq<(ObjectId, Seq<ObjectId>)> {
    v.map_values(|x: (ObjectId, Vec<ObjectId>)| entry_view(x))
}

/// The orderings an action declares (none for other actions).
pub open spec fn orderings_of(a: Action) -> Seq<(ObjectId, Seq<ObjectId>)> {
    match a {
        Action::OrderBlockers { orderings } => ordering_view(orderings@),
        _ => Seq::empty(),
    }
}

/// The declarations an action makes (none for other actions).
pub open spec fn attackers_of(a: Action) -> Seq<AttackerDeclaration> {
    match a {
        Action::DeclareAttackers { attackers } => attackers@,
        _ => Seq::empty(),
    }
}

// =============================================================================
// Who attacks, and what
// =============================================================================

/// `o` is an untapped battlefield creature of `active` that may attack:
/// no Defender (CR 702.3b), no effect saying it can't attack, and not
/// summoning sick unless it has Haste (CR 302.6, 702.10b).
pub open spec fn able_to_attack(s: GameState, active: PlayerId, o: GameObject) -> bool {
    &&& o.zone == Zone::Battlefield
    &&& o.controller == active
    &&& o.characteristics.types.has_bits(TypeLine::CREATURE)
    &&& !o.status.tapped
    &&& !spec_has_keyword(o, s.continuous_effects@, KeywordAbility::Defender)
    &&& !cant_attack(s, o.id)
    &&& !(o.status.summoning_sick && !spec_has_keyword(o, s.continuous_effects@, KeywordAbility::Haste))
}

/// Ids of the objects of `objs` able to attack, in order.
pub open spec fn able_ids(s: GameState, active: PlayerId, objs: Seq<GameObject>) -> Seq<ObjectId>
    decreases objs.len(),
{
    if objs.len() == 0 {
        Seq::empty()
    } else {
        let rest = able_ids(s, active, objs.drop_last());
        if able_to_attack(s, active, objs.last()) {
            rest.push(objs.last().id)
        } else {
            rest
        }
    }
}

/// Seats below `n` other than `active`, in order.
pub open spec fn seats_but(n: nat, active: PlayerId) -> Seq<PlayerId>
    decreases n,
{
    if n == 0 {
        Seq::empty()
    } else {
        let rest = seats_but((n - 1) as nat, active);
        if (n - 1) as u8 != active {
            rest.push((n - 1) as u8)
        } else {
            rest
        }
    }
}

/// Every player but `active`, in seat order.
pub open spec fn opponent_seats(s: GameState, active: PlayerId) -> Seq<PlayerId> {
    seats_but(s.players@.len(), active)
}

/// `o` is a battlefield permanent of `opp` with type bit `bits`.
pub open spec fn attackable_of(o: GameObject, opp: PlayerId, bits: u16) -> bool {
    o.zone == Zone::Battlefield && o.controller == opp && o.characteristics.types.has_bits(bits)
}

/// The planeswalkers (`pw`) or battles (`!pw`) of `opp` among `objs`, in
/// order.
pub open spec fn permanent_defenders(objs: Seq<GameObject>, opp: PlayerId, pw: bool) -> Seq<DefendingEntity>
    decreases objs.len(),
{
    if objs.len() == 0 {
        Seq::empty()
    } else {
        let rest = permanent_defenders(objs.drop_last(), opp, pw);
        let o = objs.last();
        if pw && attackable_of(o, opp, TypeLine::PLANESWALKER) {
            rest.push(DefendingEntity::Planeswalker(o.id))
        } else if !pw && attackable_of(o, opp, TypeLine::BATTLE) {
            rest.push(DefendingEntity::Battle(o.id))
        } else {
            rest
        }
    }
}

/// For each of `opps` in turn, its planeswalkers and then its battles.
pub open spec fn extra_defenders(objs: Seq<GameObject>, opps: Seq<PlayerId>) -> Seq<DefendingEntity>
    decreases opps.len(),
{
    if opps.len() == 0 {
        Seq::empty()
    } else {
        extra_defenders(objs, opps.drop_last()) + permanent_defenders(objs, opps.last(), true)
            + permanent_defenders(objs, opps.last(), false)
    }
}

/// The players of `opps` as defenders.
pub open spec fn player_defenders(opps: Seq<PlayerId>) -> Seq<DefendingEntity> {
    opps.map_values(|p: PlayerId| DefendingEntity::Player(p))
}

/// What any attacker of `active` may attack: each opponent, then each
/// opponent's planeswalkers and battles (CR 508.1b).
pub open spec fn defenders(s: GameState, active: PlayerId) -> Seq<DefendingEntity> {
    let opps = opponent_seats(s, active);
    player_defenders(opps) + extra_defenders(s.objects.objs@, opps)
}

// =============================================================================
// Declarations
// =============================================================================

/// `b` to the power `e`.
pub open spec fn power(b: nat, e: nat) -> nat
    decreases e,
{
    if e == 0 {
        1
    } else {
        b * power(b, (e - 1) as nat)
    }
}

/// Digit `i` of `j` written in base `b`, least significant first.
pub open spec fn digit(j: nat, b: nat, i: nat) -> nat
    decreases i,
{
    if i == 0 {
        j % b
    } else {
        digit(j / b, b, (i - 1) as nat)
    }
}

/// The declaration numbered `j` over the first `n` attackers: attacker
/// `i` stays home on digit 0 and attacks `defs[g - 1]` on digit `g`.
pub open spec fn numbered_declaration(
    atk: Seq<ObjectId>,
    defs: Seq<DefendingEntity>,
    j: nat,
    n: nat,
) -> Seq<AttackerDeclaration>
    decreases n,
{
    if n == 0 {
        Seq::empty()
    } else {
        let rest = numbered_declaration(atk, defs, j, (n - 1) as nat);
        let g = digit(j, defs.len() + 1, (n - 1) as nat);
        if g == 0 {
            rest
        } else {
            rest.push(AttackerDeclaration { attacker: atk[n - 1], defending: defs[g - 1] })
        }
    }
}

/// Every attacker against one defender.
pub open spec fn alpha_strike(atk: Seq<ObjectId>, def: DefendingEntity) -> Seq<AttackerDeclaration> {
    atk.map_values(|a: ObjectId| AttackerDeclaration { attacker: a, defending: def })
}

/// One attacker alone against each of `defs`.
pub open spec fn single_attacks(a: ObjectId, defs: Seq<DefendingEntity>) -> Seq<Seq<AttackerDeclaration>> {
    defs.map_values(|d: DefendingEntity| seq![AttackerDeclaration { attacker: a, defending: d }])
}

/// Each attacker alone against each defender, attacker by attacker.
pub open spec fn all_single_attacks(atk: Seq<ObjectId>, defs: Seq<DefendingEntity>) -> Seq<
    Seq<AttackerDeclaration>,
>
    decreases atk.len(),
{
    if atk.len() == 0 {
        Seq::empty()
    } else {
        all_single_attacks(atk.drop_last(), defs) + single_attacks(atk.last(), defs)
    }
}

/// The declarations numbered 1 to `count` over all of `atk`.
pub open spec fn numbered_declarations(atk: Seq<ObjectId>, defs: Seq<DefendingEntity>, count: nat) -> Seq<
    Seq<AttackerDeclaration>,
> {
    Seq::new(count, |t: int| numbered_declaration(atk, defs, (t + 1) as nat, atk.len()))
}

/// All of `atk` against each of `defs` in turn.
pub open spec fn alpha_strikes(atk: Seq<ObjectId>, defs: Seq<DefendingEntity>) -> Seq<Seq<AttackerDeclaration>> {
    defs.map_values(|d: DefendingEntity| alpha_strike(atk, d))
}

/// `s` cut to at most `MAX_COMBAT_ENUM` entries.
pub open spec fn capped<A>(s: Seq<A>) -> Seq<A> {
    if s.len() <= MAX_COMBAT_ENUM {
        s
    } else {
        s.take(MAX_COMBAT_ENUM as int)
    }
}

/// The attack declarations open to `active`. Declaring no attacker comes
/// first. When every combination of attackers and defenders numbers at
/// most `MAX_COMBAT_ENUM`, each non-empty one follows, numbered in base
/// (defenders + 1) with the first attacker's digit least significant.
/// Otherwise each attacker alone against each defender, then all
/// attackers against each defender, cut to `MAX_COMBAT_ENUM` entries.
pub open spec fn attack_declarations(s: GameState, active: PlayerId) -> Seq<Seq<AttackerDeclaration>> {
    let atk = able_ids(s, active, s.objects.objs@);
    let defs = defenders(s, active);
    let b = defs.len() + 1;
    let none = seq![Seq::<AttackerDeclaration>::empty()];
    if opponent_seats(s, active).len() == 0 || atk.len() == 0 {
        none
    } else if power(b, atk.len()) <= MAX_COMBAT_ENUM {
        none + numbered_declarations(atk, defs, (power(b, atk.len()) - 1) as nat)
    } else {
        capped(none + all_single_attacks(atk, defs) + alpha_strikes(atk, defs))
    }
}


// =============================================================================
// Enumeration
// =============================================================================

/// Every player but `active`, in seat order.
fn opponent_list(state: &GameState, active: PlayerId) -> (v: Vec<PlayerId>)
    requires
        state.players@.len() <= 255,
    ensures
        v@ == opponent_seats(*state, active),
{
    let n = state.num_players();
    let mut v: Vec<PlayerId> = Vec::new();
    let mut p: u8 = 0;
    while p < n
        invariant
            p <= n,
            n == state.players@.len(),
            v@ == seats_but(p as nat, active),
        decreases n - p,
    {
        if p != active {
            v.push(p);
        }
        p = p + 1;
    }
    v
}

/// Ids of `active`'s creatures able to attack, in id order.
fn able_attacker_ids(state: &GameState, active: PlayerId) -> (v: Vec<ObjectId>)
    ensures
        v@ == able_ids(*state, active, state.objects.objs@),
{
    let ghost objs = state.objects.objs@;
    let mut v: Vec<ObjectId> = Vec::new();
    let mut i: usize = 0;
    while i < state.objects.objs.len()
        invariant
            objs == state.objects.objs@,
            i <= objs.len(),
            v@ == able_ids(*state, active, objs.take(i as int)),
        decreases objs.len() - i,
    {
        let o = &state.objects.objs[i];
        proof {
            assert(objs.take(i + 1).drop_last() =~= objs.take(i as int));
            assert(objs.take(i + 1).last() == objs[i as int]);
        }
        let able = o.zone == Zone::Battlefield && o.controller == active && o.characteristics.types.is_creature()
            && !o.status.tapped && !object_has_keyword(o, &state.continuous_effects, KeywordAbility::Defender)
            && !effect_in_force(state, ContinuousEffectKind::CantAttack { target: o.id })
            && !(o.status.summoning_sick && !object_has_keyword(
            o,
            &state.continuous_effects,
            KeywordAbility::Haste,
        ));
        if able {
            v.push(o.id);
        }
        i = i + 1;
    }
    proof {
        assert(objs.take(i as int) =~= objs);
    }
    v
}

/// Append `opp`'s planeswalkers (`pw`) or battles (`!pw`) to `out`.
fn push_permanent_defenders(state: &GameState, opp: PlayerId, pw: bool, out: &mut Vec<DefendingEntity>)
    ensures
        final(out)@ == old(out)@ + permanent_defenders(state.objects.objs@, opp, pw),
{
    let ghost objs = state.objects.objs@;
    let ghost start = out@;
    let mut i: usize = 0;
    while i < state.objects.objs.len()
        invariant
            objs == state.objects.objs@,
            i <= objs.len(),
            out@ == start + permanent_defenders(
                objs.take(i as int),
                opp,
                pw,
            ),
        decreases objs.len() - i,
    {
        let o = &state.objects.objs[i];
        proof {
            assert(objs.take(i + 1).drop_last() =~= objs.take(i as int));
            assert(objs.take(i + 1).last() == objs[i as int]);
        }
        if o.zone == Zone::Battlefield && o.controller == opp {
            if pw && o.characteristics.types.is_planeswalker() {
                out.push(DefendingEntity::Planeswalker(o.id));
            } else if !pw && o.characteristics.types.is_battle() {
                out.push(DefendingEntity::Battle(o.id));
            }
        }
        proof {
            assert(out@ =~= start + permanent_defenders(
                objs.take(i + 1),
                opp,
                pw,
            ));
        }
        i = i + 1;
    }
    proof {
        assert(objs.take(i as int) =~= objs);
        assert(out@ =~= start + permanent_defenders(objs, opp, pw));
    }
}

/// What `active`'s attackers may attack, as [`defenders`] gives it.
fn defender_list(state: &GameState, active: PlayerId, opps: &Vec<PlayerId>) -> (v: Vec<DefendingEntity>)
    requires
        opps@ == opponent_seats(*state, active),
    ensures
        v@ == defenders(*state, active),
{
    let ghost objs = state.objects.objs@;
    let mut v: Vec<DefendingEntity> = Vec::new();
    let mut t: usize = 0;
    while t < opps.len()
        invariant
            t <= opps@.len(),
            v@ == player_defenders(opps@.take(t as int)),
        decreases opps@.len() - t,
    {
        v.push(DefendingEntity::Player(opps[t]));
        proof {
            assert(v@ =~= player_defenders(opps@.take(t + 1)));
        }
        t = t + 1;
    }
    proof {
        assert(opps@.take(t as int) =~= opps@);
    }
    let ghost head = v@;
    let mut t: usize = 0;
    while t < opps.len()
        invariant
            objs == state.objects.objs@,
            t <= opps@.len(),
            v@ == head + extra_defenders(objs, opps@.take(t as int)),
        decreases opps@.len() - t,
    {
        proof {
            assert(opps@.take(t + 1).drop_last() =~= opps@.take(t as int));
        }
        push_permanent_defenders(state, opps[t], true, &mut v);
        push_permanent_defenders(state, opps[t], false, &mut v);
        proof {
            assert(v@ =~= head + extra_defenders(objs, opps@.take(t + 1)));
        }
        t = t + 1;
    }
    proof {
        assert(opps@.take(t as int) =~= opps@);
    }
    v
}

/// Powers of `b >= 1` do not shrink as the exponent grows.
proof fn lemma_power_grows(b: nat, i: nat, k: nat)
    requires
        b >= 1,
        i <= k,
    ensures
        power(b, i) <= power(b, k),
        power(b, k) >= 1,
    decreases k,
{
    if k > 0 {
        if i < k {
            lemma_power_grows(b, i, (k - 1) as nat);
        } else {
            lemma_power_grows(b, 0, (k - 1) as nat);
        }
        let p = power(b, (k - 1) as nat);
        assert(b * p >= p && b * p >= 1) by (nonlinear_arith)
            requires
                b >= 1,
                p >= 1,
        ;
    }
}

/// The declaration numbered `j` over all of `atk`, with `b` one more than
/// the number of defenders.
fn declaration_numbered(atk: &Vec<ObjectId>, defs: &Vec<DefendingEntity>, b: usize, j: usize) -> (v: Vec<
    AttackerDeclaration,
>)
    requires
        b == defs@.len() + 1,
    ensures
        v@ == numbered_declaration(atk@, defs@, j as nat, atk@.len()),
{
    let mut v: Vec<AttackerDeclaration> = Vec::new();
    let mut x: usize = j;
    let mut i: usize = 0;
    while i < atk.len()
        invariant
            b == defs@.len() + 1,
            i <= atk@.len(),
            forall|t: nat| #[trigger] digit(x as nat, b as nat, t) == digit(j as nat, b as nat, (i + t) as nat),
            v@ == numbered_declaration(atk@, defs@, j as nat, i as nat),
        decreases atk@.len() - i,
    {
        let g = x % b;
        proof {
            assert(digit(x as nat, b as nat, 0) == digit(j as nat, b as nat, (i + 0) as nat));
            assert(g == digit(j as nat, b as nat, i as nat));
            assert(g < b);
        }
        if g != 0 {
            v.push(AttackerDeclaration { attacker: atk[i], defending: defs[g - 1] });
        }
        proof {
            assert(v@ =~= numbered_declaration(atk@, defs@, j as nat, (i + 1) as nat));
        }
        let ghost x0 = x;
        x = x / b;
        proof {
            assert forall|t: nat| #[trigger] digit(x as nat, b as nat, t) == digit(
                j as nat,
                b as nat,
                (i + 1 + t) as nat,
            ) by {
                assert(digit(x0 as nat, b as nat, t + 1) == digit(j as nat, b as nat, (i + (t + 1)) as nat));
            }
        }
        i = i + 1;
    }
    v
}

/// `r` is the attack declarations open to `active`, in order.
pub open spec fn attacks_ok(s: GameState, active: PlayerId, r: Seq<Action>) -> bool {
    declares(r, legal_attack_declarations(s, active))
}

/// The declarations of [`attack_declarations`], before attack
/// requirements and goad are applied.
fn attack_candidates(state: &GameState, active: PlayerId) -> (r: Vec<Action>)
    requires
        state.wf(),
    ensures
        declares(r@, attack_declarations(*state, active)),
{
    let ghost want = attack_declarations(*state, active);
    let ghost none = seq![Seq::<AttackerDeclaration>::empty()];
    let mut out: Vec<Action> = Vec::new();
    out.push(Action::DeclareAttackers { attackers: Vec::new() });
    proof {
        assert(attackers_of(out@[0]) =~= Seq::<AttackerDeclaration>::empty());
    }
    let opps = opponent_list(state, active);
    if opps.len() == 0 {
        return out;
    }
    let atk = able_attacker_ids(state, active);
    if atk.len() == 0 {
        return out;
    }
    let defs = defender_list(state, active, &opps);
    proof {
        assert(player_defenders(opps@).len() == opps@.len());
        assert(defs@.len() >= 1);
    }
    let ghost k = atk@.len();
    let ghost bb = defs@.len() + 1;
    // Is the full cross product within the cap?
    let mut total: usize = 0;
    let mut over = true;
    if defs.len() < MAX_COMBAT_ENUM {
        let b: usize = defs.len() + 1;
        total = 1;
        over = false;
        let mut i: usize = 0;
        while i < atk.len()
            invariant_except_break
                !over,
            invariant
                b == bb,
                bb >= 2,
                b <= MAX_COMBAT_ENUM,
                i <= k,
                k == atk@.len(),
                total == power(bb, i as nat),
                total <= MAX_COMBAT_ENUM,
            ensures
                over ==> power(bb, k) > MAX_COMBAT_ENUM,
                !over ==> total == power(bb, k) && total <= MAX_COMBAT_ENUM,
            decreases k - i,
        {
            assert(total * b <= 1024 * 1024 && total * b == b * total) by (nonlinear_arith)
                requires
                    total <= 1024,
                    b <= 1024,
            ;
            let nt = total * b;
            if nt > MAX_COMBAT_ENUM {
                proof {
                    lemma_power_grows(bb, (i + 1) as nat, k);
                }
                over = true;
                break;
            }
            total = nt;
            i = i + 1;
        }
    } else {
        proof {
            lemma_power_grows(bb, 1, k);
            assert(power(bb, 0) == 1);
            assert(power(bb, 1) == bb * power(bb, 0));
            assert(power(bb, 1) == bb);
            assert(power(bb, k) > MAX_COMBAT_ENUM);
        }
    }
    assert(over ==> power(bb, k) > MAX_COMBAT_ENUM);
    if !over {
        let b: usize = defs.len() + 1;
        proof {
            assert(want == none + numbered_declarations(atk@, defs@, (power(bb, k) - 1) as nat));
        }
        proof {
            lemma_power_grows(bb, 0, k);
        }
        let mut j: usize = 1;
        while j < total
            invariant
                b == bb,
                b == defs@.len() + 1,
                1 <= j <= total,
                total == power(bb, k),
                k == atk@.len(),
                none == seq![Seq::<AttackerDeclaration>::empty()],
                want == none + numbered_declarations(atk@, defs@, (power(bb, k) - 1) as nat),
                out@.len() == j,
                forall|q: int| 0 <= q < out@.len() ==> (#[trigger] out@[q] is DeclareAttackers) && attackers_of(out@[q]) == want[q],
            decreases total - j,
        {
            let decl = declaration_numbered(&atk, &defs, b, j);
            proof {
                assert(numbered_declarations(atk@, defs@, (power(bb, k) - 1) as nat)[j - 1] == numbered_declaration(
                    atk@,
                    defs@,
                    j as nat,
                    k,
                ));
                let xs = numbered_declarations(atk@, defs@, (power(bb, k) - 1) as nat);
                assert((none + xs)[j as int] == xs[j - 1]);
                assert(want[j as int] == numbered_declaration(atk@, defs@, j as nat, k));
            }
            out.push(Action::DeclareAttackers { attackers: decl });
            proof {
                assert(attackers_of(out@[j as int]) == want[j as int]);
            }
            j = j + 1;
        }
        return out;
    }
    // Too many combinations: single attacks, then alpha strikes, capped.
    let ghost all = none + all_single_attacks(atk@, defs@) + alpha_strikes(atk@, defs@);
    proof {
        assert(power(bb, k) > MAX_COMBAT_ENUM);
        assert(want == capped(all));
    }
    let ghost mut sofar = none;
    let mut i: usize = 0;
    while i < atk.len()
        invariant
            i <= atk@.len(),
            sofar == none + all_single_attacks(atk@.take(i as int), defs@),
            out@.len() <= MAX_COMBAT_ENUM,
            out@.len() == sofar.len() || out@.len() == MAX_COMBAT_ENUM,
            out@.len() <= sofar.len(),
            forall|q: int| 0 <= q < out@.len() ==> (#[trigger] out@[q] is DeclareAttackers) && attackers_of(out@[q]) == sofar[q],
        decreases atk@.len() - i,
    {
        let ghost before = sofar;
        let mut q: usize = 0;
        while q < defs.len()
            invariant
                i < atk@.len(),
                q <= defs@.len(),
                sofar == before + single_attacks(atk@[i as int], defs@.take(q as int)),
                out@.len() <= MAX_COMBAT_ENUM,
                out@.len() == sofar.len() || out@.len() == MAX_COMBAT_ENUM,
                out@.len() <= sofar.len(),
                forall|q: int| 0 <= q < out@.len() ==> (#[trigger] out@[q] is DeclareAttackers) && attackers_of(out@[q]) == sofar[q],
            decreases defs@.len() - q,
        {
            let one = AttackerDeclaration { attacker: atk[i], defending: defs[q] };
            if out.len() < MAX_COMBAT_ENUM {
                let mut d: Vec<AttackerDeclaration> = Vec::new();
                d.push(one);
                out.push(Action::DeclareAttackers { attackers: d });
                proof {
                    assert(attackers_of(out@[out@.len() - 1]) =~= seq![one]);
                }
            }
            proof {
                assert(single_attacks(atk@[i as int], defs@.take(q + 1)) =~= single_attacks(
                    atk@[i as int],
                    defs@.take(q as int),
                ).push(seq![one]));
                sofar = sofar.push(seq![one]);
                assert(sofar =~= before + single_attacks(atk@[i as int], defs@.take(q + 1)));
            }
            q = q + 1;
        }
        proof {
            assert(defs@.take(q as int) =~= defs@);
            assert(atk@.take(i + 1).drop_last() =~= atk@.take(i as int));
            assert(sofar =~= none + all_single_attacks(atk@.take(i + 1), defs@));
        }
        i = i + 1;
    }
    proof {
        assert(atk@.take(i as int) =~= atk@);
    }
    let ghost singles = sofar;
    let mut q: usize = 0;
    while q < defs.len()
        invariant
            q <= defs@.len(),
            sofar == singles + alpha_strikes(atk@, defs@.take(q as int)),
            out@.len() <= MAX_COMBAT_ENUM,
            out@.len() == sofar.len() || out@.len() == MAX_COMBAT_ENUM,
            out@.len() <= sofar.len(),
            forall|q: int| 0 <= q < out@.len() ==> (#[trigger] out@[q] is DeclareAttackers) && attackers_of(out@[q]) == sofar[q],
        decreases defs@.len() - q,
    {
        let def = defs[q];
        let mut decl: Vec<AttackerDeclaration> = Vec::new();
        let mut t: usize = 0;
        while t < atk.len()
            invariant
                t <= atk@.len(),
                decl@ == alpha_strike(atk@.take(t as int), def),
            decreases atk@.len() - t,
        {
            decl.push(AttackerDeclaration { attacker: atk[t], defending: def });
            proof {
                assert(decl@ =~= alpha_strike(atk@.take(t + 1), def));
            }
            t = t + 1;
        }
        proof {
            assert(atk@.take(t as int) =~= atk@);
        }
        let ghost strike = decl@;
        if out.len() < MAX_COMBAT_ENUM {
            out.push(Action::DeclareAttackers { attackers: decl });
        }
        proof {
            sofar = sofar.push(strike);
            assert(alpha_strikes(atk@, defs@.take(q + 1)) =~= alpha_strikes(atk@, defs@.take(q as int)).push(strike));
            assert(sofar =~= singles + alpha_strikes(atk@, defs@.take(q + 1)));
        }
        q = q + 1;
    }
    proof {
        assert(defs@.take(q as int) =~= defs@);
        assert(sofar =~= all);
    }
    out
}

// =============================================================================
// Attack requirements and restrictions
// =============================================================================

/// Some continuous effect in force in `s` is `k`.
pub open spec fn has_effect(s: GameState, k: ContinuousEffectKind) -> bool {
    exists|i: int| 0 <= i < s.continuous_effects@.len() && (#[trigger] s.continuous_effects@[i]).kind == k
}

/// `id` can't attack.
pub open spec fn cant_attack(s: GameState, id: ObjectId) -> bool {
    has_effect(s, ContinuousEffectKind::CantAttack { target: id })
}

/// Player `p` goads `id`.
pub open spec fn goaded_by(s: GameState, id: ObjectId, p: PlayerId) -> bool {
    has_effect(s, ContinuousEffectKind::Goaded { target: id, goader: p })
}

/// `id` attacks each combat if able: an effect says so, or it is goaded.
pub open spec fn must_attack(s: GameState, id: ObjectId) -> bool {
    has_effect(s, ContinuousEffectKind::MustAttack { target: id }) || exists|p: PlayerId| #[trigger] goaded_by(s, id, p)
}

/// `atk` may attack `def`: never a player goading it.
pub open spec fn defender_ok(s: GameState, atk: ObjectId, def: DefendingEntity) -> bool {
    match def {
        DefendingEntity::Player(p) => !goaded_by(s, atk, p),
        _ => true,
    }
}

/// No attacker of `d` attacks a player goading it.
pub open spec fn goad_ok(s: GameState, d: Seq<AttackerDeclaration>) -> bool {
    forall|i: int| 0 <= i < d.len() ==> defender_ok(s, (#[trigger] d[i]).attacker, d[i].defending)
}

/// `x` attacks in `d`.
pub open spec fn attacks_in(d: Seq<AttackerDeclaration>, x: ObjectId) -> bool {
    exists|i: int| 0 <= i < d.len() && (#[trigger] d[i]).attacker == x
}

/// Every creature of `req` attacks in `d`.
pub open spec fn includes_all(req: Seq<ObjectId>, d: Seq<AttackerDeclaration>) -> bool {
    forall|r: int| 0 <= r < req.len() ==> #[trigger] attacks_in(d, req[r])
}

/// `id` has something it may attack among the defenders of `active`.
pub open spec fn has_legal_defender(s: GameState, active: PlayerId, id: ObjectId) -> bool {
    exists|j: int| 0 <= j < defenders(s, active).len() && defender_ok(s, id, #[trigger] defenders(s, active)[j])
}

/// The creatures of `atk` that must attack and can (CR 508.1d), in order.
pub open spec fn required_ids(s: GameState, active: PlayerId, atk: Seq<ObjectId>) -> Seq<ObjectId>
    decreases atk.len(),
{
    if atk.len() == 0 {
        Seq::empty()
    } else {
        let rest = required_ids(s, active, atk.drop_last());
        if must_attack(s, atk.last()) && has_legal_defender(s, active, atk.last()) {
            rest.push(atk.last())
        } else {
            rest
        }
    }
}

/// The declarations of `ds` in which no creature attacks its goader.
pub open spec fn goad_kept(s: GameState, ds: Seq<Seq<AttackerDeclaration>>) -> Seq<Seq<AttackerDeclaration>>
    decreases ds.len(),
{
    if ds.len() == 0 {
        Seq::empty()
    } else {
        let rest = goad_kept(s, ds.drop_last());
        if goad_ok(s, ds.last()) {
            rest.push(ds.last())
        } else {
            rest
        }
    }
}

/// The declarations of `ds` in which every creature of `req` attacks.
pub open spec fn meeting(req: Seq<ObjectId>, ds: Seq<Seq<AttackerDeclaration>>) -> Seq<Seq<AttackerDeclaration>>
    decreases ds.len(),
{
    if ds.len() == 0 {
        Seq::empty()
    } else {
        let rest = meeting(req, ds.drop_last());
        if includes_all(req, ds.last()) {
            rest.push(ds.last())
        } else {
            rest
        }
    }
}

/// The attack declarations open to `active`: those of
/// [`attack_declarations`] in which no creature attacks a player goading
/// it; of these, when some creature must attack and can, those in which
/// all such creatures attack, unless there are none.
pub open spec fn legal_attack_declarations(s: GameState, active: PlayerId) -> Seq<Seq<AttackerDeclaration>> {
    let kept = goad_kept(s, attack_declarations(s, active));
    let req = required_ids(s, active, able_ids(s, active, s.objects.objs@));
    let m = meeting(req, kept);
    if req.len() > 0 && m.len() > 0 {
        m
    } else {
        kept
    }
}

/// `r` declares exactly the attacks of `ds`, in order.
pub open spec fn declares(r: Seq<Action>, ds: Seq<Seq<AttackerDeclaration>>) -> bool {
    &&& r.len() == ds.len()
    &&& forall|i: int| 0 <= i < r.len() ==> (#[trigger] r[i] is DeclareAttackers) && attackers_of(r[i]) == ds[i]
}

/// Is an effect equal to `k` in force?
fn effect_in_force(state: &GameState, k: ContinuousEffectKind) -> (b: bool)
    ensures
        b == has_effect(*state, k),
{
    let mut i: usize = 0;
    while i < state.continuous_effects.len()
        invariant
            i <= state.continuous_effects@.len(),
            forall|j: int| 0 <= j < i ==> (#[trigger] state.continuous_effects@[j]).kind != k,
        decreases state.continuous_effects@.len() - i,
    {
        if state.continuous_effects[i].kind == k {
            return true;
        }
        i = i + 1;
    }
    false
}

/// Must `id` attack each combat if able?
fn must_attack_now(state: &GameState, id: ObjectId) -> (b: bool)
    ensures
        b == must_attack(*state, id),
{
    let mut i: usize = 0;
    while i < state.continuous_effects.len()
        invariant
            i <= state.continuous_effects@.len(),
            forall|j: int|
                0 <= j < i ==> (#[trigger] state.continuous_effects@[j]).kind != (ContinuousEffectKind::MustAttack {
                    target: id,
                }) && !(state.continuous_effects@[j].kind matches ContinuousEffectKind::Goaded { target, .. } && target
                    == id),
        decreases state.continuous_effects@.len() - i,
    {
        match state.continuous_effects[i].kind {
            ContinuousEffectKind::MustAttack { target } => {
                if target == id {
                    return true;
                }
            },
            ContinuousEffectKind::Goaded { target, goader } => {
                if target == id {
                    proof {
                        assert(goaded_by(*state, id, goader));
                    }
                    return true;
                }
            },
            _ => {},
        }
        i = i + 1;
    }
    proof {
        assert forall|p: PlayerId| !#[trigger] goaded_by(*state, id, p) by {
            if goaded_by(*state, id, p) {
                let j = choose|j: int|
                    0 <= j < state.continuous_effects@.len() && (#[trigger] state.continuous_effects@[j]).kind
                        == (ContinuousEffectKind::Goaded { target: id, goader: p });
                assert(state.continuous_effects@[j].kind != (ContinuousEffectKind::MustAttack { target: id }));
            }
        }
    }
    false
}

/// May `atk` attack `def`?
fn defender_allowed(state: &GameState, atk: ObjectId, def: DefendingEntity) -> (b: bool)
    ensures
        b == defender_ok(*state, atk, def),
{
    match def {
        DefendingEntity::Player(p) => !effect_in_force(state, ContinuousEffectKind::Goaded { target: atk, goader: p }),
        _ => true,
    }
}

/// Does no attacker of `d` attack a player goading it?
fn decl_goad_ok(state: &GameState, d: &Vec<AttackerDeclaration>) -> (b: bool)
    ensures
        b == goad_ok(*state, d@),
{
    let mut i: usize = 0;
    while i < d.len()
        invariant
            i <= d@.len(),
            forall|j: int| 0 <= j < i ==> defender_ok(*state, (#[trigger] d@[j]).attacker, d@[j].defending),
        decreases d@.len() - i,
    {
        if !defender_allowed(state, d[i].attacker, d[i].defending) {
            return false;
        }
        i = i + 1;
    }
    true
}

/// Does every creature of `req` attack in `d`?
fn decl_includes_all(req: &Vec<ObjectId>, d: &Vec<AttackerDeclaration>) -> (b: bool)
    ensures
        b == includes_all(req@, d@),
{
    let mut r: usize = 0;
    while r < req.len()
        invariant
            r <= req@.len(),
            forall|q: int| 0 <= q < r ==> #[trigger] attacks_in(d@, req@[q]),
        decreases req@.len() - r,
    {
        let mut i: usize = 0;
        let mut found = false;
        while i < d.len()
            invariant
                i <= d@.len(),
                r < req@.len(),
                forall|q: int| 0 <= q < r ==> #[trigger] attacks_in(d@, req@[q]),
                found ==> attacks_in(d@, req@[r as int]),
                !found ==> forall|k: int| 0 <= k < i ==> (#[trigger] d@[k]).attacker != req@[r as int],
            decreases d@.len() - i,
        {
            if d[i].attacker == req[r] {
                found = true;
            }
            i = i + 1;
        }
        if !found {
            proof {
                if includes_all(req@, d@) {
                    assert(attacks_in(d@, req@[r as int]));
                }
            }
            return false;
        }
        r = r + 1;
    }
    true
}

/// Has `id` something it may attack among `defs`?
fn legal_defender_exists(state: &GameState, id: ObjectId, defs: &Vec<DefendingEntity>) -> (b: bool)
    ensures
        b == exists|j: int| 0 <= j < defs@.len() && defender_ok(*state, id, #[trigger] defs@[j]),
{
    let mut j: usize = 0;
    while j < defs.len()
        invariant
            j <= defs@.len(),
            forall|k: int| 0 <= k < j ==> !defender_ok(*state, id, #[trigger] defs@[k]),
        decreases defs@.len() - j,
    {
        if defender_allowed(state, id, defs[j]) {
            return true;
        }
        j = j + 1;
    }
    false
}

/// The creatures of `atk` that must attack and have something to attack
/// among `defs`.
fn required_list(state: &GameState, active: PlayerId, atk: &Vec<ObjectId>, defs: &Vec<DefendingEntity>) -> (v: Vec<
    ObjectId,
>)
    requires
        defs@ == defenders(*state, active),
    ensures
        v@ == required_ids(*state, active, atk@),
{
    let mut v: Vec<ObjectId> = Vec::new();
    let mut i: usize = 0;
    while i < atk.len()
        invariant
            defs@ == defenders(*state, active),
            i <= atk@.len(),
            v@ == required_ids(*state, active, atk@.take(i as int)),
        decreases atk@.len() - i,
    {
        proof {
            assert(atk@.take(i + 1).drop_last() =~= atk@.take(i as int));
            assert(atk@.take(i + 1).last() == atk@[i as int]);
        }
        if must_attack_now(state, atk[i]) && legal_defender_exists(state, atk[i], defs) {
            v.push(atk[i]);
        }
        i = i + 1;
    }
    proof {
        assert(atk@.take(i as int) =~= atk@);
    }
    v
}

/// The actions of `v` whose declarations keep every creature off its
/// goaders.
fn keep_goad_ok(state: &GameState, v: Vec<Action>, Ghost(ds): Ghost<Seq<Seq<AttackerDeclaration>>>) -> (r: Vec<Action>)
    requires
        declares(v@, ds),
    ensures
        declares(r@, goad_kept(*state, ds)),
{
    let ghost all = v@;
    let mut v = v;
    let mut r: Vec<Action> = Vec::new();
    let n0 = v.len();
    let mut t: usize = 0;
    while v.len() > 0
        invariant
            all.len() == n0,
            declares(all, ds),
            v@ == all.skip(t as int),
            t <= all.len(),
            declares(r@, goad_kept(*state, ds.take(t as int))),
        decreases v@.len(),
    {
        proof {
            assert(all.skip(t as int)[0] == all[t as int]);
            assert(all.skip(t as int).remove(0) =~= all.skip(t + 1));
            assert(ds.take(t + 1).drop_last() =~= ds.take(t as int));
            assert(ds.take(t + 1).last() == ds[t as int]);
        }
        let a = v.remove(0);
        let ok = match &a {
            Action::DeclareAttackers { attackers } => decl_goad_ok(state, attackers),
            _ => false,
        };
        let ghost before = r@;
        if ok {
            r.push(a);
        }
        proof {
            let g = goad_kept(*state, ds.take(t + 1));
            assert forall|i: int| 0 <= i < r@.len() implies (#[trigger] r@[i] is DeclareAttackers) && attackers_of(r@[i])
                == g[i] by {
                if i < before.len() {
                    assert(r@[i] == before[i]);
                }
            }
        }
        t = t + 1;
    }
    proof {
        assert(all.skip(t as int).len() == 0);
        assert(ds.take(t as int) =~= ds);
    }
    r
}

/// The actions of `v` whose declarations have every creature of `req`
/// attack.
fn keep_meeting(req: &Vec<ObjectId>, v: Vec<Action>, Ghost(ds): Ghost<Seq<Seq<AttackerDeclaration>>>) -> (r: Vec<Action>)
    requires
        declares(v@, ds),
    ensures
        declares(r@, meeting(req@, ds)),
{
    let ghost all = v@;
    let mut v = v;
    let mut r: Vec<Action> = Vec::new();
    let n0 = v.len();
    let mut t: usize = 0;
    while v.len() > 0
        invariant
            all.len() == n0,
            declares(all, ds),
            v@ == all.skip(t as int),
            t <= all.len(),
            declares(r@, meeting(req@, ds.take(t as int))),
        decreases v@.len(),
    {
        proof {
            assert(all.skip(t as int)[0] == all[t as int]);
            assert(all.skip(t as int).remove(0) =~= all.skip(t + 1));
            assert(ds.take(t + 1).drop_last() =~= ds.take(t as int));
            assert(ds.take(t + 1).last() == ds[t as int]);
        }
        let a = v.remove(0);
        let ok = match &a {
            Action::DeclareAttackers { attackers } => decl_includes_all(req, attackers),
            _ => false,
        };
        let ghost before = r@;
        if ok {
            r.push(a);
        }
        proof {
            let g = meeting(req@, ds.take(t + 1));
            assert forall|i: int| 0 <= i < r@.len() implies (#[trigger] r@[i] is DeclareAttackers) && attackers_of(r@[i])
                == g[i] by {
                if i < before.len() {
                    assert(r@[i] == before[i]);
                }
            }
        }
        t = t + 1;
    }
    proof {
        assert(all.skip(t as int).len() == 0);
        assert(ds.take(t as int) =~= ds);
    }
    r
}

/// Does some declaration of `v` have every creature of `req` attack?
fn any_meeting(req: &Vec<ObjectId>, v: &Vec<Action>, Ghost(ds): Ghost<Seq<Seq<AttackerDeclaration>>>) -> (b: bool)
    requires
        declares(v@, ds),
    ensures
        b == (meeting(req@, ds).len() > 0),
{
    let mut i: usize = 0;
    while i < v.len()
        invariant
            declares(v@, ds),
            i <= v@.len(),
            meeting(req@, ds.take(i as int)).len() == 0,
        decreases v@.len() - i,
    {
        proof {
            assert(ds.take(i + 1).drop_last() =~= ds.take(i as int));
            assert(ds.take(i + 1).last() == ds[i as int]);
        }
        let ok = match &v[i] {
            Action::DeclareAttackers { attackers } => decl_includes_all(req, attackers),
            _ => false,
        };
        if ok {
            proof {
                lemma_meeting_grows(req@, ds, i + 1);
            }
            return true;
        }
        i = i + 1;
    }
    proof {
        assert(ds.take(i as int) =~= ds);
    }
    false
}

/// A prefix with a declaration meeting `req` keeps one in the whole.
proof fn lemma_meeting_grows(req: Seq<ObjectId>, ds: Seq<Seq<AttackerDeclaration>>, n: int)
    requires
        0 <= n <= ds.len(),
        meeting(req, ds.take(n)).len() > 0,
    ensures
        meeting(req, ds).len() > 0,
    decreases ds.len() - n,
{
    if n < ds.len() {
        assert(ds.take(n + 1).drop_last() =~= ds.take(n));
        lemma_meeting_grows(req, ds, n + 1);
    } else {
        assert(ds.take(n) =~= ds);
    }
}

/// Every attack declaration open to `active` (CR 508.1), as
/// [`legal_attack_declarations`] lists them.
pub fn enumerate_attacker_declarations(state: &GameState, active: PlayerId) -> (r: Vec<Action>)
    requires
        state.wf(),
    ensures
        attacks_ok(*state, active, r@),
{
    let cands = attack_candidates(state, active);
    let kept = keep_goad_ok(state, cands, Ghost(attack_declarations(*state, active)));
    let ghost kept_ds = goad_kept(*state, attack_declarations(*state, active));
    let atk = able_attacker_ids(state, active);
    let opps = opponent_list(state, active);
    let defs = defender_list(state, active, &opps);
    let req = required_list(state, active, &atk, &defs);
    if req.len() == 0 {
        return kept;
    }
    if !any_meeting(&req, &kept, Ghost(kept_ds)) {
        return kept;
    }
    keep_meeting(&req, kept, Ghost(kept_ds))
}

// =============================================================================
// Special actions
// =============================================================================

/// Ids of the cards in `player`'s hand among `objs`, in order.
pub open spec fn hand_ids(objs: Seq<GameObject>, player: PlayerId) -> Seq<ObjectId>
    decreases objs.len(),
{
    if objs.len() == 0 {
        Seq::empty()
    } else {
        let rest = hand_ids(objs.drop_last(), player);
        if objs.last().zone == Zone::Hand(player) {
            rest.push(objs.last().id)
        } else {
            rest
        }
    }
}

/// Ids of the cards in `player`'s hand, in id order.
fn hand_list(state: &GameState, player: PlayerId) -> (v: Vec<ObjectId>)
    ensures
        v@ == hand_ids(state.objects.objs@, player),
{
    let ghost objs = state.objects.objs@;
    let mut v: Vec<ObjectId> = Vec::new();
    let mut i: usize = 0;
    while i < state.objects.objs.len()
        invariant
            objs == state.objects.objs@,
            i <= objs.len(),
            v@ == hand_ids(objs.take(i as int), player),
        decreases objs.len() - i,
    {
        proof {
            assert(objs.take(i + 1).drop_last() =~= objs.take(i as int));
        }
        if state.objects.objs[i].zone == Zone::Hand(player) {
            v.push(state.objects.objs[i].id);
        }
        i = i + 1;
    }
    proof {
        assert(objs.take(i as int) =~= objs);
    }
    v
}

/// The actions open to `player` while `special` is under way: keep or
/// mulligan; discard any one card of the hand (CR 514.1); choose any
/// player to go first; put the lowest-id `n` cards of the hand (all of it
/// when smaller) on the bottom, as one canonical choice; nothing while
/// sideboarding.
pub open spec fn special_ok(s: GameState, player: PlayerId, special: SpecialAction, r: Seq<Action>) -> bool {
        match special {
            SpecialAction::MulliganDecision => r.len() == 2 && r[0] is MulliganKeep && r[1] is MulliganAgain,
            SpecialAction::DiscardToHandSize => r.len() == hand_ids(s.objects.objs@, player).len() && forall|i: int|
                0 <= i < r.len() ==> #[trigger] r[i] == Action::MakeChoice(
                    ChoiceAction::ChooseObject(hand_ids(s.objects.objs@, player)[i]),
                ),
            SpecialAction::ChooseFirstPlayer => r.len() == s.players@.len() && forall|i: int|
                0 <= i < r.len() ==> #[trigger] r[i] == Action::MakeChoice(ChoiceAction::ChoosePlayer(i as u8)),
            SpecialAction::LondonMulliganBottomCards(n) => r.len() == 1 && (r[0] matches Action::BottomCards(v)
                && v@ == hand_ids(s.objects.objs@, player).take(
                if n <= hand_ids(s.objects.objs@, player).len() {
                    n as int
                } else {
                    hand_ids(s.objects.objs@, player).len() as int
                },
            )),
            SpecialAction::Sideboarding => r.len() == 0,
        }
}

/// The actions open to `player` while `special` is under way, as
/// [`special_ok`] describes them.
pub fn legal_special_actions(state: &GameState, player: PlayerId, special: &SpecialAction) -> (r: Vec<Action>)
    requires
        state.wf(),
    ensures
        special_ok(*state, player, *special, r@),
{
    match special {
        SpecialAction::MulliganDecision => {
            let mut r: Vec<Action> = Vec::new();
            r.push(Action::MulliganKeep);
            r.push(Action::MulliganAgain);
            r
        },
        SpecialAction::DiscardToHandSize => {
            let hand = hand_list(state, player);
            let mut r: Vec<Action> = Vec::new();
            let mut i: usize = 0;
            while i < hand.len()
                invariant
                    i <= hand@.len(),
                    r@.len() == i,
                    forall|j: int|
                        0 <= j < i ==> #[trigger] r@[j] == Action::MakeChoice(ChoiceAction::ChooseObject(hand@[j])),
                decreases hand@.len() - i,
            {
                r.push(Action::MakeChoice(ChoiceAction::ChooseObject(hand[i])));
                i = i + 1;
            }
            r
        },
        SpecialAction::ChooseFirstPlayer => {
            let n = state.num_players();
            let mut r: Vec<Action> = Vec::new();
            let mut p: u8 = 0;
            while p < n
                invariant
                    p <= n,
                    n == state.players@.len(),
                    r@.len() == p,
                    forall|j: int| 0 <= j < p ==> #[trigger] r@[j] == Action::MakeChoice(ChoiceAction::ChoosePlayer(j as u8)),
                decreases n - p,
            {
                r.push(Action::MakeChoice(ChoiceAction::ChoosePlayer(p)));
                p = p + 1;
            }
            r
        },
        SpecialAction::LondonMulliganBottomCards(n) => {
            let hand = hand_list(state, player);
            let mut pick: Vec<ObjectId> = Vec::new();
            let mut i: usize = 0;
            while i < hand.len() && (i as u64) < (*n as u64)
                invariant
                    i <= hand@.len(),
                    i <= *n,
                    pick@ == hand@.take(i as int),
                decreases hand@.len() - i,
            {
                pick.push(hand[i]);
                proof {
                    assert(pick@ =~= hand@.take(i + 1));
                }
                i = i + 1;
            }
            let mut r: Vec<Action> = Vec::new();
            r.push(Action::BottomCards(pick));
            r
        },
        SpecialAction::Sideboarding => Vec::new(),
    }
}

// =============================================================================
// Damage-assignment order
// =============================================================================

/// The attackers of `atts` blocked by two or more creatures, each with its
/// blockers, in order.
pub open spec fn multi_blocked(atts: Seq<AttackerInfo>) -> Seq<(ObjectId, Seq<ObjectId>)>
    decreases atts.len(),
{
    if atts.len() == 0 {
        Seq::empty()
    } else {
        let rest = multi_blocked(atts.drop_last());
        if atts.last().blocked_by@.len() >= 2 {
            rest.push((atts.last().object_id, atts.last().blocked_by@))
        } else {
            rest
        }
    }
}

/// Each partial ordering of `acc` in turn, extended by `atk` with each of
/// `perms` in turn.
pub open spec fn extend_orderings(
    acc: Seq<Seq<(ObjectId, Seq<ObjectId>)>>,
    atk: ObjectId,
    perms: Seq<Seq<ObjectId>>,
) -> Seq<Seq<(ObjectId, Seq<ObjectId>)>>
    decreases acc.len(),
{
    if acc.len() == 0 {
        Seq::empty()
    } else {
        extend_orderings(acc.drop_last(), atk, perms) + perms.map_values(
            |p: Seq<ObjectId>| acc.last().push((atk, p)),
        )
    }
}

/// The damage-assignment orders over the attackers of `ms`: the product
/// of each attacker's blocker orderings (each cut to `MAX_COMBAT_ENUM`),
/// the running product cut to `MAX_COMBAT_ENUM` after every attacker.
pub open spec fn order_products(ms: Seq<(ObjectId, Seq<ObjectId>)>) -> Seq<Seq<(ObjectId, Seq<ObjectId>)>>
    decreases ms.len(),
{
    if ms.len() == 0 {
        seq![Seq::empty()]
    } else {
        capped(
            extend_orderings(
                order_products(ms.drop_last()),
                ms.last().0,
                spec_capped(spec_permutations(ms.last().1)),
            ),
        )
    }
}

/// The damage-assignment orders open to the attacking player: none
/// outside combat or when no attacker is blocked by two or more creatures.
pub open spec fn blocker_orderings(s: GameState) -> Seq<Seq<(ObjectId, Seq<ObjectId>)>> {
    match s.combat {
        None => Seq::empty(),
        Some(c) => if multi_blocked(c.attackers@).len() == 0 {
            Seq::empty()
        } else {
            order_products(multi_blocked(c.attackers@))
        },
    }
}

/// Viewing an extended list of entries extends its view.
proof fn lemma_ordering_view_push(v: Seq<(ObjectId, Vec<ObjectId>)>, x: (ObjectId, Vec<ObjectId>))
    ensures
        ordering_view(v.push(x)) == ordering_view(v).push(entry_view(x)),
{
    assert(ordering_view(v.push(x)) =~= ordering_view(v).push(entry_view(x)));
}

/// Viewing an extended list of orderings extends its view.
proof fn lemma_acc_view_push(v: Seq<Vec<(ObjectId, Vec<ObjectId>)>>, x: Vec<(ObjectId, Vec<ObjectId>)>)
    ensures
        acc_view(v.push(x)) == acc_view(v).push(ordering_view(x@)),
{
    assert(acc_view(v.push(x)) =~= acc_view(v).push(ordering_view(x@)));
}

/// A copy of `v`.
fn copy_ids(v: &Vec<ObjectId>) -> (r: Vec<ObjectId>)
    ensures
        r@ == v@,
{
    let mut r: Vec<ObjectId> = Vec::new();
    let mut i: usize = 0;
    while i < v.len()
        invariant
            i <= v@.len(),
            r@ == v@.take(i as int),
        decreases v@.len() - i,
    {
        r.push(v[i]);
        proof {
            assert(r@ =~= v@.take(i + 1));
        }
        i = i + 1;
    }
    proof {
        assert(v@.take(i as int) =~= v@);
    }
    r
}

/// A copy of `partial` with `(atk, p)` added.
fn extended_copy(partial: &Vec<(ObjectId, Vec<ObjectId>)>, atk: ObjectId, p: &Vec<ObjectId>) -> (r: Vec<
    (ObjectId, Vec<ObjectId>),
>)
    ensures
        ordering_view(r@) == ordering_view(partial@).push((atk, p@)),
{
    let mut r: Vec<(ObjectId, Vec<ObjectId>)> = Vec::new();
    let mut i: usize = 0;
    while i < partial.len()
        invariant
            i <= partial@.len(),
            ordering_view(r@) == ordering_view(partial@.take(i as int)),
        decreases partial@.len() - i,
    {
        let e = (partial[i].0, copy_ids(&partial[i].1));
        let ghost old_r = r@;
        r.push(e);
        proof {
            lemma_ordering_view_push(old_r, e);
            assert(partial@.take(i + 1) =~= partial@.take(i as int).push(partial@[i as int]));
            lemma_ordering_view_push(partial@.take(i as int), partial@[i as int]);
            assert(entry_view(e) == entry_view(partial@[i as int]));
        }
        i = i + 1;
    }
    proof {
        assert(partial@.take(i as int) =~= partial@);
    }
    let last = (atk, copy_ids(p));
    let ghost old_r = r@;
    r.push(last);
    proof {
        lemma_ordering_view_push(old_r, last);
    }
    r
}

/// The orderings of `acc`, by value.
pub open spec fn acc_view(acc: Seq<Vec<(ObjectId, Vec<ObjectId>)>>) -> Seq<Seq<(ObjectId, Seq<ObjectId>)>> {
    acc.map_values(|v: Vec<(ObjectId, Vec<ObjectId>)>| ordering_view(v@))
}

/// `r` is the damage-assignment orders open to the attacking player.
pub open spec fn orderings_ok(s: GameState, r: Seq<Action>) -> bool {
    &&& r.len() == blocker_orderings(s).len()
    &&& forall|i: int|
        0 <= i < r.len() ==> (#[trigger] r[i] is OrderBlockers) && orderings_of(r[i]) == blocker_orderings(s)[i]
}

/// Every damage-assignment order the attacking player may declare
/// (CR 509.2), as [`blocker_orderings`] lists them.
pub fn enumerate_blocker_orderings(state: &GameState) -> (r: Vec<Action>)
    ensures
        orderings_ok(*state, r@),
{
    let combat = match &state.combat {
        Some(c) => c,
        None => return Vec::new(),
    };
    let ghost atts = combat.attackers@;
    let mut acc: Vec<Vec<(ObjectId, Vec<ObjectId>)>> = Vec::new();
    let first: Vec<(ObjectId, Vec<ObjectId>)> = Vec::new();
    proof {
        assert(ordering_view(first@) =~= Seq::<(ObjectId, Seq<ObjectId>)>::empty());
        lemma_acc_view_push(acc@, first);
        assert(acc_view(acc@) =~= Seq::<Seq<(ObjectId, Seq<ObjectId>)>>::empty());
    }
    acc.push(first);
    proof {
        assert(acc_view(acc@) =~= seq![Seq::<(ObjectId, Seq<ObjectId>)>::empty()]);
    }
    let mut t: usize = 0;
    while t < combat.attackers.len()
        invariant
            atts == combat.attackers@,
            t <= atts.len(),
            acc_view(acc@) == order_products(multi_blocked(atts.take(t as int))),
        decreases atts.len() - t,
    {
        proof {
            assert(atts.take(t + 1).drop_last() =~= atts.take(t as int));
            assert(atts.take(t + 1).last() == atts[t as int]);
        }
        let a = &combat.attackers[t];
        let ghost acc0 = acc_view(acc@);
        if a.blocked_by.len() >= 2 {
            let perms = permutations(a.blocked_by.as_slice());
            let ghost pv = spec_capped(spec_permutations(a.blocked_by@));
            let ghost full = extend_orderings(acc_view(acc@), a.object_id, pv);
            let mut next: Vec<Vec<(ObjectId, Vec<ObjectId>)>> = Vec::new();
            let ghost mut sofar: Seq<Seq<(ObjectId, Seq<ObjectId>)>> = Seq::empty();
            let mut u: usize = 0;
            while u < acc.len()
                invariant
                    u <= acc@.len(),
                    perms.deep_view() == pv,
                    sofar == extend_orderings(acc_view(acc@).take(u as int), a.object_id, pv),
                    acc_view(next@) == capped(sofar),
                decreases acc@.len() - u,
            {
                let ghost before = sofar;
                let mut w: usize = 0;
                while w < perms.len()
                    invariant
                        u < acc@.len(),
                        w <= perms@.len(),
                        perms.deep_view() == pv,
                        sofar == before + pv.take(w as int).map_values(
                            |p: Seq<ObjectId>| acc_view(acc@)[u as int].push((a.object_id, p)),
                        ),
                        acc_view(next@) == capped(sofar),
                    decreases perms@.len() - w,
                {
                    let ghost item = acc_view(acc@)[u as int].push((a.object_id, pv[w as int]));
                    if next.len() < MAX_COMBAT_ENUM {
                        let e = extended_copy(&acc[u], a.object_id, &perms[w]);
                        let ghost old_next = next@;
                        next.push(e);
                        proof {
                            assert(perms@[w as int]@ == pv[w as int]);
                            assert(acc_view(acc@)[u as int] == ordering_view(acc@[u as int]@));
                            assert(ordering_view(e@) == item);
                            lemma_acc_view_push(old_next, e);
                            assert(acc_view(old_next).len() == old_next.len());
                            assert(capped(sofar).len() == old_next.len());
                            assert(sofar.len() < MAX_COMBAT_ENUM);
                            assert(acc_view(next@) =~= capped(sofar.push(item)));
                        }
                    } else {
                        proof {
                            assert(capped(sofar.push(item)) =~= capped(sofar));
                        }
                    }
                    proof {
                        assert(pv.take(w + 1).map_values(
                            |p: Seq<ObjectId>| acc_view(acc@)[u as int].push((a.object_id, p)),
                        ) =~= pv.take(w as int).map_values(
                            |p: Seq<ObjectId>| acc_view(acc@)[u as int].push((a.object_id, p)),
                        ).push(item));
                        sofar = sofar.push(item);
                    }
                    w = w + 1;
                }
                proof {
                    assert(pv.take(w as int) =~= pv);
                    assert(acc_view(acc@).take(u + 1).drop_last() =~= acc_view(acc@).take(u as int));
                    assert(sofar =~= extend_orderings(acc_view(acc@).take(u + 1), a.object_id, pv));
                }
                u = u + 1;
            }
            proof {
                assert(acc_view(acc@).take(u as int) =~= acc_view(acc@));
                assert(multi_blocked(atts.take(t + 1)) == multi_blocked(atts.take(t as int)).push(
                    (a.object_id, a.blocked_by@),
                ));
                let ms = multi_blocked(atts.take(t + 1));
                assert(ms.drop_last() =~= multi_blocked(atts.take(t as int)));
                assert(ms.last() == (a.object_id, a.blocked_by@));
                assert(acc_view(acc@) == acc0);
                assert(sofar == extend_orderings(acc0, a.object_id, pv));
                assert(order_products(ms) == capped(extend_orderings(acc0, a.object_id, pv)));
            }
            acc = next;
        } else {
            proof {
                assert(multi_blocked(atts.take(t + 1)) == multi_blocked(atts.take(t as int)));
            }
        }
        t = t + 1;
    }
    proof {
        assert(atts.take(t as int) =~= atts);
    }
    // Nothing to order when no attacker is blocked by two or more.
    let mut any = false;
    let mut t: usize = 0;
    while t < combat.attackers.len()
        invariant
            atts == combat.attackers@,
            t <= atts.len(),
            any == (multi_blocked(atts.take(t as int)).len() > 0),
        decreases atts.len() - t,
    {
        proof {
            assert(atts.take(t + 1).drop_last() =~= atts.take(t as int));
        }
        if combat.attackers[t].blocked_by.len() >= 2 {
            any = true;
        }
        t = t + 1;
    }
    proof {
        assert(atts.take(t as int) =~= atts);
    }
    if !any {
        return Vec::new();
    }
    let mut r: Vec<Action> = Vec::new();
    let mut i: usize = 0;
    while i < acc.len()
        invariant
            i <= acc@.len(),
            r@.len() == i,
            forall|j: int|
                0 <= j < i ==> (#[trigger] r@[j] is OrderBlockers) && orderings_of(r@[j]) == acc_view(acc@)[j],
        decreases acc@.len() - i,
    {
        let e = extended_copy_all(&acc[i]);
        r.push(Action::OrderBlockers { orderings: e });
        i = i + 1;
    }
    r
}

/// A copy of `v`.
fn extended_copy_all(v: &Vec<(ObjectId, Vec<ObjectId>)>) -> (r: Vec<(ObjectId, Vec<ObjectId>)>)
    ensures
        ordering_view(r@) == ordering_view(v@),
{
    let mut r: Vec<(ObjectId, Vec<ObjectId>)> = Vec::new();
    let mut i: usize = 0;
    while i < v.len()
        invariant
            i <= v@.len(),
            ordering_view(r@) == ordering_view(v@.take(i as int)),
        decreases v@.len() - i,
    {
        let e = (v[i].0, copy_ids(&v[i].1));
        let ghost old_r = r@;
        r.push(e);
        proof {
            lemma_ordering_view_push(old_r, e);
            assert(v@.take(i + 1) =~= v@.take(i as int).push(v@[i as int]));
            lemma_ordering_view_push(v@.take(i as int), v@[i as int]);
            assert(entry_view(e) == entry_view(v@[i as int]));
        }
        i = i + 1;
    }
    proof {
        assert(v@.take(i as int) =~= v@);
    }
    r
}

// =============================================================================
// The priority window
// =============================================================================

/// Nothing waits on the stack.
pub open spec fn stack_empty(s: GameState) -> bool {
    forall|i: int| 0 <= i < s.objects.objs@.len() ==> (#[trigger] s.objects.objs@[i]).zone != Zone::Stack
}

/// `player` may act at sorcery speed: the active player, in a main phase,
/// with an empty stack (CR 307.1).
pub open spec fn sorcery_speed(s: GameState, player: PlayerId) -> bool {
    player == s.active_player && s.step == Step::Main && stack_empty(s)
}

/// `player` may play a land now (CR 305.2): at sorcery speed, with no land
/// played this turn.
pub open spec fn land_play_open(s: GameState, player: PlayerId) -> bool {
    sorcery_speed(s, player) && s.players@[player as int].lands_played_this_turn == 0
}

/// Ids of the lands in `player`'s hand among `objs`, in order.
pub open spec fn hand_lands(objs: Seq<GameObject>, player: PlayerId) -> Seq<ObjectId>
    decreases objs.len(),
{
    if objs.len() == 0 {
        Seq::empty()
    } else {
        let rest = hand_lands(objs.drop_last(), player);
        let o = objs.last();
        if o.zone == Zone::Hand(player) && o.characteristics.types.has_bits(TypeLine::LAND) {
            rest.push(o.id)
        } else {
            rest
        }
    }
}

/// `o` is a spell `player` may cast now: a nonland card with a mana cost
/// in their hand, cast at instant speed (an instant, or with Flash) or at
/// sorcery speed.
pub open spec fn castable(s: GameState, player: PlayerId, o: GameObject) -> bool {
    &&& o.zone == Zone::Hand(player)
    &&& !o.characteristics.types.has_bits(TypeLine::LAND)
    &&& o.characteristics.mana_cost is Some
    &&& (o.characteristics.types.has_bits(TypeLine::INSTANT) || spec_has_keyword(
        o,
        s.continuous_effects@,
        KeywordAbility::Flash,
    ) || sorcery_speed(s, player))
}

/// The mana cost of `o`.
pub open spec fn spell_cost(o: GameObject) -> ManaCost {
    o.characteristics.mana_cost->0
}

/// The spend context of casting `o`.
pub open spec fn spell_ctx(o: GameObject) -> SpendContext {
    SpendContext { casting_kind: CastingKind::Spell { types: o.characteristics.types, colors: o.characteristics.colors } }
}

/// `xv` is an X value a cast of `o` offers: 0 up to the size of the pool
/// for a cost with `{X}`, none otherwise.
pub open spec fn x_offered(s: GameState, player: PlayerId, o: GameObject, xv: Option<u32>) -> bool {
    if spec_has_x(spell_cost(o).components@) {
        xv matches Some(x) && x <= s.players@[player as int].mana_pool.pool@.len()
    } else {
        xv is None
    }
}

/// `plan` pays `o`'s cost, with `xv` for `{X}`, out of `player`'s pool.
pub open spec fn cast_paid(s: GameState, player: PlayerId, o: GameObject, xv: Option<u32>, plan: ManaPaymentPlan) -> bool {
    plan_pays(expanded_components(spell_cost(o), xv), s.players@[player as int].mana_pool.pool@, spell_ctx(o), plan)
}

/// The object a cast action casts (0 for other actions).
pub open spec fn cast_id(a: Action) -> ObjectId {
    match a {
        Action::CastSpell { object_id, .. } => object_id,
        _ => 0,
    }
}

/// The X value of a cast action.
pub open spec fn cast_x(a: Action) -> Option<u32> {
    match a {
        Action::CastSpell { x_value, .. } => x_value,
        _ => None,
    }
}

/// `a` casts a spell `player` may cast now, with an offered X value and a
/// plan that pays the cost.
pub open spec fn cast_ok(s: GameState, player: PlayerId, a: Action) -> bool {
    a matches Action::CastSpell { object_id, mana_payment, x_value } && s.objects@.contains_key(object_id) && castable(
        s,
        player,
        s.objects@[object_id],
    ) && x_offered(s, player, s.objects@[object_id], x_value) && cast_paid(
        s,
        player,
        s.objects@[object_id],
        x_value,
        mana_payment,
    )
}

/// The lands `player` may play now, in id order.
pub open spec fn land_plays(s: GameState, player: PlayerId) -> Seq<ObjectId> {
    if land_play_open(s, player) {
        hand_lands(s.objects.objs@, player)
    } else {
        Seq::empty()
    }
}

/// The actions of `player`'s priority window: pass, concede, each land
/// that can be played, then casts. Every cast is one `player` may make
/// now, paid by its plan; casts come in id order; and each castable spell
/// gets a cast for each offered X value that some plan pays.
pub open spec fn priority_ok(s: GameState, player: PlayerId, r: Seq<Action>) -> bool {
    let lands = land_plays(s, player);
    let start = 2 + lands.len();
    &&& r.len() >= start
    &&& r[0] is PassPriority
    &&& r[1] is Concede
    &&& forall|t: int| 0 <= t < lands.len() ==> #[trigger] r[2 + t] == (Action::PlayLand { object_id: lands[t] })
    &&& forall|j: int| start <= j < r.len() ==> cast_ok(s, player, #[trigger] r[j])
    &&& forall|j1: int, j2: int| start <= j1 < j2 < r.len() ==> cast_id(#[trigger] r[j1]) <= cast_id(#[trigger] r[j2])
    &&& forall|k: int, xv: Option<u32>, plan: ManaPaymentPlan|
        0 <= k < s.objects.objs@.len() && castable(s, player, #[trigger] s.objects.objs@[k]) && x_offered(
            s,
            player,
            s.objects.objs@[k],
            xv,
        ) && #[trigger] cast_paid(s, player, s.objects.objs@[k], xv, plan) ==> exists|j: int|
            start <= j < r.len() && cast_id(#[trigger] r[j]) == s.objects.objs@[k].id && cast_x(r[j]) == xv
}

/// Is the stack empty?
fn stack_is_empty(state: &GameState) -> (b: bool)
    ensures
        b == stack_empty(*state),
{
    let mut i: usize = 0;
    while i < state.objects.objs.len()
        invariant
            i <= state.objects.objs@.len(),
            forall|j: int| 0 <= j < i ==> (#[trigger] state.objects.objs@[j]).zone != Zone::Stack,
        decreases state.objects.objs@.len() - i,
    {
        if state.objects.objs[i].zone == Zone::Stack {
            return false;
        }
        i = i + 1;
    }
    true
}

/// Append a cast of `object_id` with `x_value` for each of `plans`, in
/// order.
fn push_casts(r: &mut Vec<Action>, object_id: ObjectId, plans: Vec<ManaPaymentPlan>, x_value: Option<u32>)
    ensures
        final(r)@.len() == old(r)@.len() + plans@.len(),
        forall|j: int| 0 <= j < old(r)@.len() ==> final(r)@[j] == old(r)@[j],
        forall|t: int|
            0 <= t < plans@.len() ==> #[trigger] final(r)@[old(r)@.len() + t] == (Action::CastSpell {
                object_id,
                mana_payment: plans@[t],
                x_value,
            }),
{
    let ghost all = plans@;
    let ghost r0 = r@;
    let mut plans = plans;
    let n0 = plans.len();
    let mut t: usize = 0;
    while plans.len() > 0
        invariant
            all.len() == n0,
            plans@ == all.skip(t as int),
            t <= all.len(),
            r@.len() == r0.len() + t,
            forall|j: int| 0 <= j < r0.len() ==> r@[j] == r0[j],
            forall|q: int|
                0 <= q < t ==> #[trigger] r@[r0.len() + q] == (Action::CastSpell {
                    object_id,
                    mana_payment: all[q],
                    x_value,
                }),
        decreases plans@.len(),
    {
        proof {
            assert(plans@.len() == all.len() - t);
        }
        let p = plans.remove(0);
        proof {
            assert(all.skip(t as int)[0] == all[t as int]);
            assert(all.skip(t as int).remove(0) =~= all.skip(t + 1));
        }
        r.push(Action::CastSpell { object_id, mana_payment: p, x_value });
        t = t + 1;
    }
    proof {
        assert(all.skip(t as int).len() == 0);
    }
}

/// Pass, concede, the land plays and the casts of `player`'s priority
/// window, as [`priority_ok`] describes them.
fn plays_and_casts(state: &GameState, player: PlayerId) -> (r: Vec<Action>)
    requires
        state.wf(),
        player < state.players@.len(),
    ensures
        priority_ok(*state, player, r@),
{
    let ghost objs = state.objects.objs@;
    let mut r: Vec<Action> = Vec::new();
    r.push(Action::PassPriority);
    r.push(Action::Concede);
    let sorcery = player == state.active_player && state.step == Step::Main && stack_is_empty(state);
    let ghost lands = land_plays(*state, player);
    if sorcery && state.player(player).lands_played_this_turn == 0 {
        let mut k: usize = 0;
        while k < state.objects.objs.len()
            invariant
                objs == state.objects.objs@,
                k <= objs.len(),
                r@.len() == 2 + hand_lands(objs.take(k as int), player).len(),
                r@[0] is PassPriority,
                r@[1] is Concede,
                forall|t: int|
                    0 <= t < hand_lands(objs.take(k as int), player).len() ==> #[trigger] r@[2 + t] == (Action::PlayLand {
                        object_id: hand_lands(objs.take(k as int), player)[t],
                    }),
            decreases objs.len() - k,
        {
            proof {
                assert(objs.take(k + 1).drop_last() =~= objs.take(k as int));
            }
            let o = &state.objects.objs[k];
            if o.zone == Zone::Hand(player) && o.characteristics.types.is_land() {
                r.push(Action::PlayLand { object_id: o.id });
            }
            k = k + 1;
        }
        proof {
            assert(objs.take(k as int) =~= objs);
        }
    }
    let start = r.len();
    proof {
        assert(start == 2 + lands.len());
    }
    let ghost r0 = r@;
    let pool = &state.player(player).mana_pool;
    let mut k: usize = 0;
    while k < state.objects.objs.len()
        invariant
            state.wf(),
            player < state.players@.len(),
            *pool == state.players@[player as int].mana_pool,
            objs == state.objects.objs@,
            sorcery == sorcery_speed(*state, player),
            k <= objs.len(),
            start == r0.len(),
            r@.len() >= start,
            forall|j: int| 0 <= j < start ==> r@[j] == r0[j],
            forall|j: int| start <= j < r@.len() ==> cast_ok(*state, player, #[trigger] r@[j]),
            forall|j1: int, j2: int|
                start <= j1 < j2 < r@.len() ==> cast_id(#[trigger] r@[j1]) <= cast_id(#[trigger] r@[j2]),
            k < objs.len() ==> forall|j: int| start <= j < r@.len() ==> cast_id(#[trigger] r@[j]) < objs[k as int].id,
            forall|k2: int, xv: Option<u32>, plan: ManaPaymentPlan|
                0 <= k2 < k && castable(*state, player, #[trigger] objs[k2]) && x_offered(*state, player, objs[k2], xv)
                    && #[trigger] cast_paid(*state, player, objs[k2], xv, plan) ==> exists|j: int|
                    start <= j < r@.len() && cast_id(#[trigger] r@[j]) == objs[k2].id && cast_x(r@[j]) == xv,
        decreases objs.len() - k,
    {
        let o = &state.objects.objs[k];
        proof {
            state.objects.lemma_at(k as int);
            if k + 1 < objs.len() {
                assert(state.objects.ids@[k as int] < state.objects.ids@[k + 1]);
            }
        }
        let instant_speed = o.characteristics.types.is_instant() || object_has_keyword(
            o,
            &state.continuous_effects,
            KeywordAbility::Flash,
        );
        let is_castable = o.zone == Zone::Hand(player) && !o.characteristics.types.is_land() && (instant_speed
            || sorcery);
        let ghost before = r@;
        if is_castable {
            match &o.characteristics.mana_cost {
                None => {},
                Some(cost) => {
                    let ctx = SpendContext::for_spell(o.characteristics.types, o.characteristics.colors);
                    proof {
                        assert(castable(*state, player, objs[k as int]));
                        assert(*cost == spell_cost(objs[k as int]));
                        assert(ctx == spell_ctx(objs[k as int]));
                    }
                    if has_x(cost) {
                        let n = pool.total();
                        let mut x: u32 = 0;
                        loop
                            invariant
                                state.wf(),
                                player < state.players@.len(),
                                *pool == state.players@[player as int].mana_pool,
                                objs == state.objects.objs@,
                                k < objs.len(),
                                castable(*state, player, objs[k as int]),
                                *cost == spell_cost(objs[k as int]),
                                ctx == spell_ctx(objs[k as int]),
                                spec_has_x(cost.components@),
                                n == pool.pool@.len(),
                                x <= n,
                                state.objects@[objs[k as int].id] == objs[k as int],
                                state.objects@.contains_key(objs[k as int].id),
                                *o == objs[k as int],
                                before.len() <= r@.len(),
                                forall|j: int| 0 <= j < before.len() ==> r@[j] == before[j],
                                forall|j: int| before.len() <= j < r@.len() ==> cast_id(#[trigger] r@[j]) == objs[k as int].id,
                                forall|j: int| before.len() <= j < r@.len() ==> cast_ok(*state, player, #[trigger] r@[j]),
                                forall|x2: u32, plan: ManaPaymentPlan|
                                    x2 < x && #[trigger] cast_paid(*state, player, objs[k as int], Some(x2), plan)
                                        ==> exists|j: int|
                                        before.len() <= j < r@.len() && cast_id(#[trigger] r@[j]) == objs[k as int].id
                                            && cast_x(r@[j]) == Some(x2),
                            ensures
                                before.len() <= r@.len(),
                                forall|j: int| 0 <= j < before.len() ==> r@[j] == before[j],
                                forall|j: int| before.len() <= j < r@.len() ==> cast_id(#[trigger] r@[j]) == objs[k as int].id,
                                forall|j: int| before.len() <= j < r@.len() ==> cast_ok(*state, player, #[trigger] r@[j]),
                                forall|x2: u32, plan: ManaPaymentPlan|
                                    x2 <= n && #[trigger] cast_paid(*state, player, objs[k as int], Some(x2), plan)
                                        ==> exists|j: int|
                                        before.len() <= j < r@.len() && cast_id(#[trigger] r@[j]) == objs[k as int].id
                                            && cast_x(r@[j]) == Some(x2),
                            decreases n - x,
                        {
                            let plans = enumerate_payment_plans(cost, pool, Some(x), &ctx);
                            let ghost ps = plans@;
                            let ghost mid = r@;
                            push_casts(&mut r, o.id, plans, Some(x));
                            proof {
                                assert forall|j: int| before.len() <= j < r@.len() implies cast_ok(
                                    *state,
                                    player,
                                    #[trigger] r@[j],
                                ) && cast_id(r@[j]) == objs[k as int].id by {
                                    if j >= mid.len() {
                                        let t = j - mid.len();
                                        assert(r@[mid.len() + t] == r@[j]);
                                        assert(r@[j] == (Action::CastSpell {
                                            object_id: o.id,
                                            mana_payment: ps[t],
                                            x_value: Some(x),
                                        }));
                                        assert(plan_pays(
                                            expanded_components(*cost, Some(x)),
                                            pool.pool@,
                                            ctx,
                                            ps[t],
                                        ));
                                        assert(state.objects@[o.id] == objs[k as int]);
                                        assert(castable(*state, player, state.objects@[o.id]));
                                        assert(x_offered(*state, player, state.objects@[o.id], Some(x)));
                                        assert(cast_paid(*state, player, state.objects@[o.id], Some(x), ps[t]));
                                    } else {
                                        assert(r@[j] == mid[j]);
                                    }
                                }
                                assert forall|x2: u32, plan: ManaPaymentPlan|
                                    x2 <= x && #[trigger] cast_paid(*state, player, objs[k as int], Some(x2), plan)
                                        implies exists|j: int|
                                        before.len() <= j < r@.len() && cast_id(#[trigger] r@[j]) == objs[k as int].id
                                            && cast_x(r@[j]) == Some(x2) by {
                                    if x2 == x {
                                        assert(plan_pays(expanded_components(*cost, Some(x)), pool.pool@, ctx, plan));
                                        assert(ps.len() > 0);
                                        assert(r@[mid.len() + 0int] == r@[mid.len() as int]);
                                        assert(cast_id(r@[mid.len() as int]) == objs[k as int].id);
                                    } else {
                                        let j = choose|j: int|
                                            before.len() <= j < mid.len() && cast_id(#[trigger] mid[j])
                                                == objs[k as int].id && cast_x(mid[j]) == Some(x2);
                                        assert(r@[j] == mid[j]);
                                    }
                                }
                            }
                            if x as usize >= n || x == u32::MAX {
                                break;
                            }
                            x = x + 1;
                        }
                        proof {
                            assert forall|xv: Option<u32>, plan: ManaPaymentPlan|
                                x_offered(*state, player, objs[k as int], xv) && #[trigger] cast_paid(
                                    *state,
                                    player,
                                    objs[k as int],
                                    xv,
                                    plan,
                                ) implies exists|j: int|
                                before.len() <= j < r@.len() && cast_id(#[trigger] r@[j]) == objs[k as int].id
                                    && cast_x(r@[j]) == xv by {
                                let x2 = xv->0;
                                assert(cast_paid(*state, player, objs[k as int], Some(x2), plan));
                            }
                        }
                    } else {
                        let plans = enumerate_payment_plans(cost, pool, None, &ctx);
                        let ghost ps = plans@;
                        push_casts(&mut r, o.id, plans, None);
                        proof {
                            assert forall|j: int| before.len() <= j < r@.len() implies cast_ok(
                                *state,
                                player,
                                #[trigger] r@[j],
                            ) && cast_id(r@[j]) == objs[k as int].id by {
                                let t = j - before.len();
                                assert(r@[before.len() + t] == r@[j]);
                                assert(r@[j] == (Action::CastSpell { object_id: o.id, mana_payment: ps[t], x_value: None }));
                                assert(plan_pays(expanded_components(*cost, None), pool.pool@, ctx, ps[t]));
                                assert(state.objects@.contains_key(o.id));
                                assert(state.objects@[o.id] == objs[k as int]);
                                assert(castable(*state, player, state.objects@[o.id]));
                                assert(x_offered(*state, player, state.objects@[o.id], None));
                                assert(cast_paid(*state, player, state.objects@[o.id], None, ps[t]));
                            }
                            assert forall|xv: Option<u32>, plan: ManaPaymentPlan|
                                x_offered(*state, player, objs[k as int], xv) && #[trigger] cast_paid(
                                    *state,
                                    player,
                                    objs[k as int],
                                    xv,
                                    plan,
                                ) implies exists|j: int|
                                before.len() <= j < r@.len() && cast_id(#[trigger] r@[j]) == objs[k as int].id
                                    && cast_x(r@[j]) == xv by {
                                assert(plan_pays(expanded_components(*cost, None), pool.pool@, ctx, plan));
                                assert(ps.len() > 0);
                                assert(cast_id(r@[before.len() as int]) == objs[k as int].id);
                            }
                        }
                    }
                },
            }
        }
        proof {
            assert forall|j: int| start <= j < r@.len() implies cast_ok(*state, player, #[trigger] r@[j]) by {
                if j < before.len() {
                    assert(r@[j] == before[j]);
                }
            }
            assert forall|j1: int, j2: int| start <= j1 < j2 < r@.len() implies cast_id(#[trigger] r@[j1]) <= cast_id(
                #[trigger] r@[j2],
            ) by {
                if j1 < before.len() {
                    assert(r@[j1] == before[j1]);
                    if j2 < before.len() {
                        assert(r@[j2] == before[j2]);
                    }
                }
            }
            assert forall|k2: int, xv: Option<u32>, plan: ManaPaymentPlan|
                0 <= k2 < k + 1 && castable(*state, player, #[trigger] objs[k2]) && x_offered(
                    *state,
                    player,
                    objs[k2],
                    xv,
                ) && #[trigger] cast_paid(*state, player, objs[k2], xv, plan) implies exists|j: int|
                start <= j < r@.len() && cast_id(#[trigger] r@[j]) == objs[k2].id && cast_x(r@[j]) == xv by {
                if k2 < k {
                    let j = choose|j: int|
                        start <= j < before.len() && cast_id(#[trigger] before[j]) == objs[k2].id && cast_x(before[j])
                            == xv;
                    assert(r@[j] == before[j]);
                } else {
                    assert(k2 == k);
                    assert(is_castable);
                }
            }
            if k + 1 < objs.len() {
                assert forall|j: int| start <= j < r@.len() implies cast_id(#[trigger] r@[j]) < objs[k + 1].id by {
                    if j < before.len() {
                        assert(r@[j] == before[j]);
                    }
                }
            }
        }
        k = k + 1;
    }
    proof {
        assert forall|k2: int, xv: Option<u32>, plan: ManaPaymentPlan|
            0 <= k2 < objs.len() && castable(*state, player, #[trigger] objs[k2]) && x_offered(*state, player, objs[k2], xv)
                && #[trigger] cast_paid(*state, player, objs[k2], xv, plan) implies exists|j: int|
            start <= j < r@.len() && cast_id(#[trigger] r@[j]) == objs[k2].id && cast_x(r@[j]) == xv by {
        }
        assert forall|t: int| 0 <= t < lands.len() implies #[trigger] r@[2 + t] == (Action::PlayLand {
            object_id: lands[t],
        }) by {
            assert(r@[2 + t] == r0[2 + t]);
        }
        assert(r@[0] == r0[0]);
        assert(r@[1] == r0[1]);
    }
    r
}


/// The actions of `player`'s priority window: pass, concede, the land
/// plays and the casts as [`priority_ok`] says, then the activations as
/// [`activations_ok`] says.
pub open spec fn window_ok(s: GameState, reg: CardRegistry, player: PlayerId, r: Seq<Action>) -> bool {
    exists|c: int|
        #![trigger r.take(c)]
        0 <= c <= r.len() && priority_ok(s, player, r.take(c)) && activations_ok(s, reg, player, r.skip(c))
}

/// Every action of `player`'s priority window, as [`window_ok`]
/// describes them.
pub fn legal_priority_actions(state: &GameState, player: PlayerId, registry: &CardRegistry) -> (r: Vec<Action>)
    requires
        state.wf(),
        player < state.players@.len(),
    ensures
        window_ok(*state, *registry, player, r@),
{
    let mut r = plays_and_casts(state, player);
    let ghost head = r@;
    let mut acts = enumerate_activation_actions(state, player, registry);
    let ghost tail = acts@;
    r.append(&mut acts);
    proof {
        assert(r@.take(head.len() as int) =~= head);
        assert(r@.skip(head.len() as int) =~= tail);
    }
    r
}

// =============================================================================
// Activated abilities
// =============================================================================

/// An X value that fits `cost` out of a pool of `n` units: 0 up to `n`
/// for a cost with `{X}`, none otherwise.
pub open spec fn x_fits(cost: ManaCost, n: nat, xv: Option<u32>) -> bool {
    if spec_has_x(cost.components@) {
        xv matches Some(x) && x <= n
    } else {
        xv is None
    }
}

/// Append `(xv, plan)` for each of `plans`, in order.
fn tag_plans(r: &mut Vec<(Option<u32>, ManaPaymentPlan)>, xv: Option<u32>, plans: Vec<ManaPaymentPlan>)
    ensures
        final(r)@.len() == old(r)@.len() + plans@.len(),
        forall|j: int| 0 <= j < old(r)@.len() ==> final(r)@[j] == old(r)@[j],
        forall|t: int| 0 <= t < plans@.len() ==> #[trigger] final(r)@[old(r)@.len() + t] == (xv, plans@[t]),
{
    let ghost all = plans@;
    let ghost r0 = r@;
    let mut plans = plans;
    let n0 = plans.len();
    let mut t: usize = 0;
    while plans.len() > 0
        invariant
            all.len() == n0,
            plans@ == all.skip(t as int),
            t <= all.len(),
            r@.len() == r0.len() + t,
            forall|j: int| 0 <= j < r0.len() ==> r@[j] == r0[j],
            forall|q: int| 0 <= q < t ==> #[trigger] r@[r0.len() + q] == (xv, all[q]),
        decreases plans@.len(),
    {
        proof {
            assert(plans@.len() == all.len() - t);
        }
        let p = plans.remove(0);
        proof {
            assert(all.skip(t as int)[0] == all[t as int]);
            assert(all.skip(t as int).remove(0) =~= all.skip(t + 1));
        }
        r.push((xv, p));
        t = t + 1;
    }
    proof {
        assert(all.skip(t as int).len() == 0);
    }
}

/// Every way to pay `cost` out of `pool` in `ctx`, with the X value it
/// is paid at: each entry's plan pays the cost at its X, and each X value
/// that fits and that some plan pays has an entry.
fn payment_options(cost: &ManaCost, pool: &ManaPool, ctx: &SpendContext) -> (r: Vec<(Option<u32>, ManaPaymentPlan)>)
    ensures
        forall|j: int|
            0 <= j < r@.len() ==> x_fits(*cost, pool.pool@.len(), (#[trigger] r@[j]).0) && plan_pays(
                expanded_components(*cost, r@[j].0),
                pool.pool@,
                *ctx,
                r@[j].1,
            ),
        forall|xv: Option<u32>, plan: ManaPaymentPlan|
            x_fits(*cost, pool.pool@.len(), xv) && #[trigger] plan_pays(expanded_components(*cost, xv), pool.pool@, *ctx, plan)
                ==> exists|j: int| 0 <= j < r@.len() && (#[trigger] r@[j]).0 == xv,
{
    let mut r: Vec<(Option<u32>, ManaPaymentPlan)> = Vec::new();
    if has_x(cost) {
        let n = pool.total();
        let mut x: u32 = 0;
        loop
            invariant
                spec_has_x(cost.components@),
                n == pool.pool@.len(),
                x <= n,
                forall|j: int|
                    0 <= j < r@.len() ==> x_fits(*cost, pool.pool@.len(), (#[trigger] r@[j]).0) && plan_pays(
                        expanded_components(*cost, r@[j].0),
                        pool.pool@,
                        *ctx,
                        r@[j].1,
                    ),
                forall|x2: u32, plan: ManaPaymentPlan|
                    x2 < x && #[trigger] plan_pays(expanded_components(*cost, Some(x2)), pool.pool@, *ctx, plan)
                        ==> exists|j: int| 0 <= j < r@.len() && (#[trigger] r@[j]).0 == Some(x2),
            ensures
                forall|j: int|
                    0 <= j < r@.len() ==> x_fits(*cost, pool.pool@.len(), (#[trigger] r@[j]).0) && plan_pays(
                        expanded_components(*cost, r@[j].0),
                        pool.pool@,
                        *ctx,
                        r@[j].1,
                    ),
                forall|x2: u32, plan: ManaPaymentPlan|
                    x2 <= n && #[trigger] plan_pays(expanded_components(*cost, Some(x2)), pool.pool@, *ctx, plan)
                        ==> exists|j: int| 0 <= j < r@.len() && (#[trigger] r@[j]).0 == Some(x2),
            decreases n - x,
        {
            let plans = enumerate_payment_plans(cost, pool, Some(x), ctx);
            let ghost ps = plans@;
            let ghost mid = r@;
            tag_plans(&mut r, Some(x), plans);
            proof {
                assert forall|j: int| 0 <= j < r@.len() implies x_fits(*cost, pool.pool@.len(), (#[trigger] r@[j]).0)
                    && plan_pays(expanded_components(*cost, r@[j].0), pool.pool@, *ctx, r@[j].1) by {
                    if j >= mid.len() {
                        let t = j - mid.len();
                        assert(r@[mid.len() + t] == (Some(x), ps[t]));
                    } else {
                        assert(r@[j] == mid[j]);
                    }
                }
                assert forall|x2: u32, plan: ManaPaymentPlan|
                    x2 <= x && #[trigger] plan_pays(expanded_components(*cost, Some(x2)), pool.pool@, *ctx, plan)
                        implies exists|j: int| 0 <= j < r@.len() && (#[trigger] r@[j]).0 == Some(x2) by {
                    if x2 == x {
                        assert(ps.len() > 0);
                        assert(r@[mid.len() + 0int] == (Some(x), ps[0]));
                    } else {
                        let j = choose|j: int| 0 <= j < mid.len() && (#[trigger] mid[j]).0 == Some(x2);
                        assert(r@[j] == mid[j]);
                    }
                }
            }
            if x as usize >= n || x == u32::MAX {
                break;
            }
            x = x + 1;
        }
        proof {
            assert forall|xv: Option<u32>, plan: ManaPaymentPlan|
                x_fits(*cost, pool.pool@.len(), xv) && #[trigger] plan_pays(
                    expanded_components(*cost, xv),
                    pool.pool@,
                    *ctx,
                    plan,
                ) implies exists|j: int| 0 <= j < r@.len() && (#[trigger] r@[j]).0 == xv by {
                let x2 = xv->0;
                assert(plan_pays(expanded_components(*cost, Some(x2)), pool.pool@, *ctx, plan));
            }
        }
    } else {
        let plans = enumerate_payment_plans(cost, pool, None, ctx);
        let ghost ps = plans@;
        tag_plans(&mut r, None, plans);
        proof {
            assert forall|j: int| 0 <= j < r@.len() implies x_fits(*cost, pool.pool@.len(), (#[trigger] r@[j]).0)
                && plan_pays(expanded_components(*cost, r@[j].0), pool.pool@, *ctx, r@[j].1) by {
                assert(r@[0 + j] == (None::<u32>, ps[j]));
            }
            assert forall|xv: Option<u32>, plan: ManaPaymentPlan|
                x_fits(*cost, pool.pool@.len(), xv) && #[trigger] plan_pays(
                    expanded_components(*cost, xv),
                    pool.pool@,
                    *ctx,
                    plan,
                ) implies exists|j: int| 0 <= j < r@.len() && (#[trigger] r@[j]).0 == xv by {
                assert(ps.len() > 0);
                assert(r@[0 + 0int] == (None::<u32>, ps[0]));
            }
        }
    }
    r
}

/// A cost paid along with the mana of an activation.
#[derive(Clone, Copy, Debug, PartialEq, Eq, Structural)]
pub enum AdditionalCostPayment {
    /// Sacrifice this permanent.
    Sacrifice(ObjectId),
    /// Pay this much life.
    PayLife(u32),
    /// Remove `count` counters of `kind` from `source`.
    RemoveCounters { source: ObjectId, kind: CounterKind, count: u32 },
    /// Put `count` counters of `kind` on `source`.
    AddCounters { source: ObjectId, kind: CounterKind, count: u32 },
}

/// The costs of `cost` other than mana for an activation of `source`, in
/// order: the sacrifice, the life, the counters removed, the counters
/// put on.
pub open spec fn spec_additional_costs(cost: ActivationCost, source: ObjectId) -> Seq<AdditionalCostPayment> {
    let a: Seq<AdditionalCostPayment> = if cost.sacrifice {
        seq![AdditionalCostPayment::Sacrifice(source)]
    } else {
        Seq::empty()
    };
    let b = if cost.life > 0 {
        a.push(AdditionalCostPayment::PayLife(cost.life))
    } else {
        a
    };
    let c = match cost.remove_self_counter {
        Some(rc) => b.push(AdditionalCostPayment::RemoveCounters { source, kind: rc.0, count: rc.1 }),
        None => b,
    };
    match cost.add_self_counter {
        Some(ac) => c.push(AdditionalCostPayment::AddCounters { source, kind: ac.0, count: ac.1 }),
        None => c,
    }
}

/// The costs of `cost` other than mana, as [`spec_additional_costs`]
/// lists them.
pub fn build_additional_costs(cost: &ActivationCost, source: ObjectId) -> (v: Vec<AdditionalCostPayment>)
    ensures
        v@ == spec_additional_costs(*cost, source),
{
    let mut v: Vec<AdditionalCostPayment> = Vec::new();
    if cost.sacrifice {
        v.push(AdditionalCostPayment::Sacrifice(source));
    }
    if cost.life > 0 {
        v.push(AdditionalCostPayment::PayLife(cost.life));
    }
    match cost.remove_self_counter {
        Some((kind, count)) => v.push(AdditionalCostPayment::RemoveCounters { source, kind, count }),
        None => {},
    }
    match cost.add_self_counter {
        Some((kind, count)) => v.push(AdditionalCostPayment::AddCounters { source, kind, count }),
        None => {},
    }
    v
}

/// `player` may activate `ab` of `o` now, leaving its mana aside: `o` is a
/// permanent `player` controls; a `{T}` cost needs it untapped and, for a
/// creature, free of summoning sickness (CR 302.6); a cost that removes
/// counters needs that many on it; an ability other than a mana ability
/// waits for sorcery speed; a loyalty ability needs an empty stack
/// (CR 606.3). Abilities that target are not offered here.
pub open spec fn activatable(s: GameState, player: PlayerId, o: GameObject, ab: ActivatedAbilityDef) -> bool {
    &&& o.zone == Zone::Battlefield
    &&& o.controller == player
    &&& ab.target_requirements@.len() == 0
    &&& ab.cost.tap ==> !o.status.tapped && !(o.characteristics.types.has_bits(TypeLine::CREATURE)
        && o.status.summoning_sick)
    &&& ab.cost.remove_self_counter matches Some(rc) ==> o.counters.count(rc.0) >= rc.1
    &&& !ab.is_mana_ability ==> sorcery_speed(s, player)
    &&& ab.is_loyalty_ability ==> stack_empty(s)
}

/// Is `ability` of `obj` one `activator` may activate now, as
/// [`activatable`] says?
pub fn ability_is_activatable(
    state: &GameState,
    obj: &GameObject,
    ability: &ActivatedAbilityDef,
    activator: PlayerId,
    sorcery_speed_ok: bool,
    stack_clear: bool,
) -> (b: bool)
    requires
        sorcery_speed_ok == sorcery_speed(*state, activator),
        stack_clear == stack_empty(*state),
    ensures
        b == activatable(*state, activator, *obj, *ability),
{
    if obj.zone != Zone::Battlefield || obj.controller != activator {
        return false;
    }
    if ability.target_requirements.len() > 0 {
        return false;
    }
    if ability.cost.tap {
        if obj.status.tapped {
            return false;
        }
        if obj.is_creature() && obj.status.summoning_sick {
            return false;
        }
    }
    match ability.cost.remove_self_counter {
        Some((kind, count)) => {
            if obj.counters.get(kind) < count {
                return false;
            }
        },
        None => {},
    }
    if !ability.is_mana_ability && !sorcery_speed_ok {
        return false;
    }
    if ability.is_loyalty_ability && !stack_clear {
        return false;
    }
    true
}

/// The `i`-th activated ability of `o`'s card, if it has one.
pub open spec fn ability_of(reg: CardRegistry, o: GameObject, i: int) -> Option<ActivatedAbilityDef> {
    match reg.spec_get(o.card_id) {
        Some(d) => if 0 <= i < d.activated_abilities@.len() {
            Some(d.activated_abilities@[i])
        } else {
            None
        },
        None => None,
    }
}

/// `plan` pays, at `xv`, the mana of the `i`-th ability of `o`, which
/// `player` may activate now with that X value.
pub open spec fn activation_paid(
    s: GameState,
    reg: CardRegistry,
    player: PlayerId,
    o: GameObject,
    i: int,
    xv: Option<u32>,
    plan: ManaPaymentPlan,
) -> bool {
    &&& ability_of(reg, o, i) is Some
    &&& activatable(s, player, o, ability_of(reg, o, i)->0)
    &&& x_fits(ability_of(reg, o, i)->0.cost.mana_cost, s.players@[player as int].mana_pool.pool@.len(), xv)
    &&& plan_pays(
        expanded_components(ability_of(reg, o, i)->0.cost.mana_cost, xv),
        s.players@[player as int].mana_pool.pool@,
        SpendContext { casting_kind: CastingKind::ActivatedAbility },
        plan,
    )
}

/// The source, ability index and X value of an activation (zeros and none
/// for other actions).
pub open spec fn act_source(a: Action) -> ObjectId {
    match a {
        Action::ActivateAbility { source, .. } => source,
        _ => 0,
    }
}

pub open spec fn act_index(a: Action) -> usize {
    match a {
        Action::ActivateAbility { ability_index, .. } => ability_index,
        _ => 0,
    }
}

pub open spec fn act_x(a: Action) -> Option<u32> {
    match a {
        Action::ActivateAbility { x_value, .. } => x_value,
        _ => None,
    }
}

/// `a` activates an ability `player` may activate now, paid by its plan,
/// with that ability's other costs.
pub open spec fn activation_ok(s: GameState, reg: CardRegistry, player: PlayerId, a: Action) -> bool {
    a matches Action::ActivateAbility { source, ability_index, mana_payment, x_value, additional_costs }
        && s.objects@.contains_key(source) && activation_paid(
        s,
        reg,
        player,
        s.objects@[source],
        ability_index as int,
        x_value,
        mana_payment,
    ) && additional_costs@ == spec_additional_costs(ability_of(reg, s.objects@[source], ability_index as int)->0.cost, source)
}

/// `a1` comes no later than `a2` by source, then ability index.
pub open spec fn act_before(a1: Action, a2: Action) -> bool {
    act_source(a1) < act_source(a2) || (act_source(a1) == act_source(a2) && act_index(a1) <= act_index(a2))
}

/// The activations of `player` now: each one legal and paid; ordered by
/// source id, then ability index; and each ability `player` may activate
/// gets an activation for each X value that some plan pays.
pub open spec fn activations_ok(s: GameState, reg: CardRegistry, player: PlayerId, r: Seq<Action>) -> bool {
    &&& forall|j: int| 0 <= j < r.len() ==> activation_ok(s, reg, player, #[trigger] r[j])
    &&& forall|j1: int, j2: int| 0 <= j1 < j2 < r.len() ==> act_before(#[trigger] r[j1], #[trigger] r[j2])
    &&& forall|k: int, i: int, xv: Option<u32>, plan: ManaPaymentPlan|
        0 <= k < s.objects.objs@.len() && #[trigger] activation_paid(s, reg, player, s.objects.objs@[k], i, xv, plan)
            ==> exists|j: int|
            0 <= j < r.len() && act_source(#[trigger] r[j]) == s.objects.objs@[k].id && act_index(r[j]) == i
                && act_x(r[j]) == xv
}

/// `a` activates ability `i` of `source` with `opt`'s X value and plan
/// and the ability's other costs `cost`.
pub open spec fn activation_entry(
    a: Action,
    source: ObjectId,
    i: usize,
    opt: (Option<u32>, ManaPaymentPlan),
    cost: ActivationCost,
) -> bool {
    a matches Action::ActivateAbility { source: s2, ability_index: i2, mana_payment, x_value, additional_costs }
        && s2 == source && i2 == i && mana_payment == opt.1 && x_value == opt.0 && additional_costs@
        == spec_additional_costs(cost, source)
}

/// Append an activation of ability `i` of `source` for each of `opts`.
fn push_activations(
    r: &mut Vec<Action>,
    source: ObjectId,
    i: usize,
    opts: Vec<(Option<u32>, ManaPaymentPlan)>,
    cost: &ActivationCost,
)
    ensures
        final(r)@.len() == old(r)@.len() + opts@.len(),
        forall|j: int| 0 <= j < old(r)@.len() ==> final(r)@[j] == old(r)@[j],
        forall|t: int|
            0 <= t < opts@.len() ==> activation_entry(#[trigger] final(r)@[old(r)@.len() + t], source, i, opts@[t], *cost),
{
    let ghost all = opts@;
    let ghost r0 = r@;
    let mut opts = opts;
    let n0 = opts.len();
    let mut t: usize = 0;
    while opts.len() > 0
        invariant
            all.len() == n0,
            opts@ == all.skip(t as int),
            t <= all.len(),
            r@.len() == r0.len() + t,
            forall|j: int| 0 <= j < r0.len() ==> r@[j] == r0[j],
            forall|q: int| 0 <= q < t ==> activation_entry(#[trigger] r@[r0.len() + q], source, i, all[q], *cost),
        decreases opts@.len(),
    {
        proof {
            assert(opts@.len() == all.len() - t);
        }
        let p = opts.remove(0);
        proof {
            assert(all.skip(t as int)[0] == all[t as int]);
            assert(all.skip(t as int).remove(0) =~= all.skip(t + 1));
        }
        let costs = build_additional_costs(cost, source);
        r.push(Action::ActivateAbility {
            source,
            ability_index: i,
            mana_payment: p.1,
            x_value: p.0,
            additional_costs: costs,
        });
        t = t + 1;
    }
    proof {
        assert(all.skip(t as int).len() == 0);
    }
}

/// Every activation open to `player` now, as [`activations_ok`] describes
/// them: one per ability, X value and payment plan, walking permanents
/// in id order and each one's abilities in order.
pub fn enumerate_activation_actions(state: &GameState, player: PlayerId, registry: &CardRegistry) -> (r: Vec<Action>)
    requires
        state.wf(),
        player < state.players@.len(),
    ensures
        activations_ok(*state, *registry, player, r@),
{
    let ghost objs = state.objects.objs@;
    let clear = stack_is_empty(state);
    let sorcery = player == state.active_player && state.step == Step::Main && clear;
    let pool = &state.player(player).mana_pool;
    let ctx = SpendContext::for_activated_ability();
    let mut r: Vec<Action> = Vec::new();
    let mut k: usize = 0;
    while k < state.objects.objs.len()
        invariant
            state.wf(),
            player < state.players@.len(),
            *pool == state.players@[player as int].mana_pool,
            objs == state.objects.objs@,
            sorcery == sorcery_speed(*state, player),
            clear == stack_empty(*state),
            ctx == (SpendContext { casting_kind: CastingKind::ActivatedAbility }),
            k <= objs.len(),
            forall|j: int| 0 <= j < r@.len() ==> activation_ok(*state, *registry, player, #[trigger] r@[j]),
            forall|j1: int, j2: int| 0 <= j1 < j2 < r@.len() ==> act_before(#[trigger] r@[j1], #[trigger] r@[j2]),
            k < objs.len() ==> forall|j: int| 0 <= j < r@.len() ==> act_source(#[trigger] r@[j]) < objs[k as int].id,
            forall|k2: int, i: int, xv: Option<u32>, plan: ManaPaymentPlan|
                0 <= k2 < k && #[trigger] activation_paid(*state, *registry, player, objs[k2], i, xv, plan) ==> exists|j: int|
                    0 <= j < r@.len() && act_source(#[trigger] r@[j]) == objs[k2].id && act_index(r@[j]) == i && act_x(r@[j])
                        == xv,
        decreases objs.len() - k,
    {
        let o = &state.objects.objs[k];
        proof {
            state.objects.lemma_at(k as int);
            if k + 1 < objs.len() {
                assert(state.objects.ids@[k as int] < state.objects.ids@[k + 1]);
            }
        }
        let ghost before = r@;
        match registry.get(o.card_id) {
            Some(d) => {
                let mut i: usize = 0;
                while i < d.activated_abilities.len()
                    invariant
                        state.wf(),
                        player < state.players@.len(),
                        *pool == state.players@[player as int].mana_pool,
                        objs == state.objects.objs@,
                        sorcery == sorcery_speed(*state, player),
                        clear == stack_empty(*state),
                        ctx == (SpendContext { casting_kind: CastingKind::ActivatedAbility }),
                        k < objs.len(),
                        *o == objs[k as int],
                        state.objects@.contains_key(o.id),
                        state.objects@[o.id] == objs[k as int],
                        registry.spec_get(o.card_id) == Some(*d),
                        i <= d.activated_abilities@.len(),
                        before.len() <= r@.len(),
                        forall|j: int| 0 <= j < before.len() ==> r@[j] == before[j],
                        forall|j: int| before.len() <= j < r@.len() ==> act_source(#[trigger] r@[j]) == o.id,
                        forall|j: int| before.len() <= j < r@.len() ==> act_index(#[trigger] r@[j]) < i,
                        forall|j: int| before.len() <= j < r@.len() ==> activation_ok(*state, *registry, player, #[trigger] r@[j]),
                        forall|j1: int, j2: int|
                            before.len() <= j1 < j2 < r@.len() ==> act_index(#[trigger] r@[j1]) <= act_index(#[trigger] r@[j2]),
                        forall|i2: int, xv: Option<u32>, plan: ManaPaymentPlan|
                            0 <= i2 < i && #[trigger] activation_paid(*state, *registry, player, objs[k as int], i2, xv, plan)
                                ==> exists|j: int|
                                before.len() <= j < r@.len() && act_index(#[trigger] r@[j]) == i2 && act_x(r@[j]) == xv,
                    decreases d.activated_abilities@.len() - i,
                {
                    let ab = &d.activated_abilities[i];
                    let ghost mid = r@;
                    proof {
                        assert(ability_of(*registry, objs[k as int], i as int) == Some(*ab));
                    }
                    if ability_is_activatable(state, o, ab, player, sorcery, clear) {
                        let opts = payment_options(&ab.cost.mana_cost, pool, &ctx);
                        let ghost os = opts@;
                        push_activations(&mut r, o.id, i, opts, &ab.cost);
                        proof {
                            assert forall|j: int| mid.len() <= j < r@.len() implies activation_ok(
                                *state,
                                *registry,
                                player,
                                #[trigger] r@[j],
                            ) && act_source(r@[j]) == o.id && act_index(r@[j]) == i by {
                                let t = j - mid.len();
                                assert(activation_entry(r@[mid.len() + t], o.id, i, os[t], ab.cost));
                                assert(r@[mid.len() + t] == r@[j]);
                            }
                            assert forall|xv: Option<u32>, plan: ManaPaymentPlan|
                                #[trigger] activation_paid(*state, *registry, player, objs[k as int], i as int, xv, plan)
                                    implies exists|j: int|
                                    before.len() <= j < r@.len() && act_index(#[trigger] r@[j]) == i && act_x(r@[j]) == xv by {
                                let jj = choose|jj: int| 0 <= jj < os.len() && (#[trigger] os[jj]).0 == xv;
                                assert(activation_entry(r@[mid.len() + jj], o.id, i, os[jj], ab.cost));
                            }
                        }
                    } else {
                        proof {
                            assert forall|xv: Option<u32>, plan: ManaPaymentPlan|
                                !activation_paid(*state, *registry, player, objs[k as int], i as int, xv, plan) by {
                            }
                        }
                    }
                    proof {
                        assert forall|j: int| before.len() <= j < r@.len() implies act_source(#[trigger] r@[j]) == o.id
                            && act_index(r@[j]) < i + 1 && activation_ok(*state, *registry, player, r@[j]) by {
                            if j < mid.len() {
                                assert(r@[j] == mid[j]);
                            }
                        }
                        assert forall|j1: int, j2: int| before.len() <= j1 < j2 < r@.len() implies act_index(
                            #[trigger] r@[j1],
                        ) <= act_index(#[trigger] r@[j2]) by {
                            if j1 < mid.len() {
                                assert(r@[j1] == mid[j1]);
                                if j2 < mid.len() {
                                    assert(r@[j2] == mid[j2]);
                                }
                            }
                        }
                        assert forall|i2: int, xv: Option<u32>, plan: ManaPaymentPlan|
                            0 <= i2 < i + 1 && #[trigger] activation_paid(*state, *registry, player, objs[k as int], i2, xv, plan)
                                implies exists|j: int|
                                before.len() <= j < r@.len() && act_index(#[trigger] r@[j]) == i2 && act_x(r@[j]) == xv by {
                            if i2 < i {
                                let j = choose|j: int|
                                    before.len() <= j < mid.len() && act_index(#[trigger] mid[j]) == i2 && act_x(mid[j]) == xv;
                                assert(r@[j] == mid[j]);
                            }
                        }
                        assert forall|j: int| 0 <= j < before.len() implies r@[j] == before[j] by {
                            assert(r@[j] == mid[j]);
                        }
                    }
                    i = i + 1;
                }
                proof {
                    assert forall|i2: int, xv: Option<u32>, plan: ManaPaymentPlan|
                        #[trigger] activation_paid(*state, *registry, player, objs[k as int], i2, xv, plan)
                            implies exists|j: int|
                            before.len() <= j < r@.len() && act_index(#[trigger] r@[j]) == i2 && act_x(r@[j]) == xv by {
                        assert(0 <= i2 < d.activated_abilities@.len());
                    }
                }
            },
            None => {
                proof {
                    assert forall|i2: int, xv: Option<u32>, plan: ManaPaymentPlan|
                        !#[trigger] activation_paid(*state, *registry, player, objs[k as int], i2, xv, plan) by {
                    }
                }
            },
        }
        proof {
            assert forall|j: int| 0 <= j < r@.len() implies activation_ok(*state, *registry, player, #[trigger] r@[j]) by {
                if j < before.len() {
                    assert(r@[j] == before[j]);
                }
            }
            assert forall|j1: int, j2: int| 0 <= j1 < j2 < r@.len() implies act_before(#[trigger] r@[j1], #[trigger] r@[j2]) by {
                if j1 < before.len() {
                    assert(r@[j1] == before[j1]);
                    if j2 < before.len() {
                        assert(r@[j2] == before[j2]);
                    }
                }
            }
            assert forall|k2: int, i: int, xv: Option<u32>, plan: ManaPaymentPlan|
                0 <= k2 < k + 1 && #[trigger] activation_paid(*state, *registry, player, objs[k2], i, xv, plan) implies exists|j: int|
                0 <= j < r@.len() && act_source(#[trigger] r@[j]) == objs[k2].id && act_index(r@[j]) == i && act_x(r@[j]) == xv by {
                if k2 < k {
                    let j = choose|j: int|
                        0 <= j < before.len() && act_source(#[trigger] before[j]) == objs[k2].id && act_index(before[j]) == i
                            && act_x(before[j]) == xv;
                    assert(r@[j] == before[j]);
                } else {
                    let j = choose|j: int| before.len() <= j < r@.len() && act_index(#[trigger] r@[j]) == i && act_x(r@[j]) == xv;
                    assert(act_source(r@[j]) == objs[k2].id);
                }
            }
            if k + 1 < objs.len() {
                assert forall|j: int| 0 <= j < r@.len() implies act_source(#[trigger] r@[j]) < objs[k + 1].id by {
                    if j < before.len() {
                        assert(r@[j] == before[j]);
                    }
                }
            }
        }
        k = k + 1;
    }
    r
}

// =============================================================================
// Combat damage distributions
// =============================================================================

/// The damage distributions of `remaining` damage over blockers `bl`
/// (each with the damage that is lethal to it), after the assignments
/// `cur` (CR 510.1c): all of it on the first blocker; or lethal damage
/// or more (at least 1) on it and the rest over the blockers after it;
/// and, with trample, lethal damage or more on the last blocker with the
/// rest left over for the player (CR 702.19b).
pub open spec fn distributions(remaining: nat, bl: Seq<(ObjectId, u32)>, cur: Seq<(ObjectId, u32)>, trample: bool) -> Seq<
    Seq<(ObjectId, u32)>,
>
    decreases bl.len(), 1nat, 0nat,
{
    if remaining == 0 {
        seq![cur]
    } else if bl.len() == 0 {
        Seq::empty()
    } else {
        let lb: nat = if bl[0].1 >= 1 {
            bl[0].1 as nat
        } else {
            1
        };
        seq![cur.push((bl[0].0, remaining as u32))] + distributions_from(lb, remaining, bl, cur, trample) + if trample
            && bl.len() == 1 {
            overflow_tail(lb, remaining, bl[0].0, cur)
        } else {
            Seq::empty()
        }
    }
}

/// For `k` from `k` up to `remaining - 1`: `k` damage on the first blocker
/// of `bl` and the distributions of the rest over the others.
pub open spec fn distributions_from(
    k: nat,
    remaining: nat,
    bl: Seq<(ObjectId, u32)>,
    cur: Seq<(ObjectId, u32)>,
    trample: bool,
) -> Seq<Seq<(ObjectId, u32)>>
    decreases bl.len(), 0nat, if k < remaining {
        (remaining - k) as nat
    } else {
        0nat
    },
{
    if k >= remaining || bl.len() == 0 {
        Seq::empty()
    } else {
        distributions((remaining - k) as nat, bl.drop_first(), cur.push((bl[0].0, k as u32)), trample)
            + distributions_from(k + 1, remaining, bl, cur, trample)
    }
}

/// For `k` from `lb` up to `remaining - 1`: `cur` and `k` damage on `blk`.
pub open spec fn overflow_tail(lb: nat, remaining: nat, blk: ObjectId, cur: Seq<(ObjectId, u32)>) -> Seq<
    Seq<(ObjectId, u32)>,
> {
    Seq::new(
        if lb < remaining {
            (remaining - lb) as nat
        } else {
            0
        },
        |t: int| cur.push((blk, (lb + t) as u32)),
    )
}

/// The least damage a blocker takes in an assignment that goes on past
/// it: the damage lethal to it, and at least 1.
pub open spec fn lethal_floor(p: (ObjectId, u32)) -> nat {
    if p.1 >= 1 {
        p.1 as nat
    } else {
        1
    }
}

/// The total damage an assignment hands out.
pub open spec fn assigned_total(e: Seq<(ObjectId, u32)>) -> nat
    decreases e.len(),
{
    if e.len() == 0 {
        0
    } else {
        e[0].1 as nat + assigned_total(e.drop_first())
    }
}

/// `e` is a legal assignment of `power` combat damage to the blockers
/// `bl`, in damage-assignment order (CR 510.1c, 702.19b): nothing when
/// there is no damage; otherwise an entry for each of the first few
/// blockers, in order, at least 1 each, every blocker before the last
/// one named taking at least its lethal damage; and either all the damage
/// is assigned, or, with trample, every blocker is named, the last one
/// too takes at least its lethal damage, and the rest is left to trample
/// over.
pub open spec fn legal_assignment(power: nat, bl: Seq<(ObjectId, u32)>, e: Seq<(ObjectId, u32)>, trample: bool) -> bool {
    if power == 0 {
        e.len() == 0
    } else {
        &&& 1 <= e.len() <= bl.len()
        &&& forall|i: int| 0 <= i < e.len() ==> (#[trigger] e[i]).0 == bl[i].0 && e[i].1 >= 1
        &&& forall|i: int| 0 <= i < e.len() - 1 ==> (#[trigger] e[i]).1 >= lethal_floor(bl[i])
        &&& (assigned_total(e) == power || (trample && e.len() == bl.len() && e[e.len() - 1].1 >= lethal_floor(
            bl[e.len() - 1],
        ) && assigned_total(e) < power))
    }
}

proof fn lemma_total_at_least_len(e: Seq<(ObjectId, u32)>)
    requires
        forall|i: int| 0 <= i < e.len() ==> (#[trigger] e[i]).1 >= 1,
    ensures
        assigned_total(e) >= e.len(),
    decreases e.len(),
{
    if e.len() > 0 {
        assert forall|i: int| 0 <= i < e.drop_first().len() implies (#[trigger] e.drop_first()[i]).1 >= 1 by {
            assert(e.drop_first()[i] == e[i + 1]);
        }
        lemma_total_at_least_len(e.drop_first());
    }
}

proof fn lemma_contains_concat<A>(a: Seq<A>, b: Seq<A>, x: A)
    ensures
        (a + b).contains(x) <==> (a.contains(x) || b.contains(x)),
{
    if (a + b).contains(x) {
        let i = choose|i: int| 0 <= i < (a + b).len() && (a + b)[i] == x;
        if i < a.len() {
            assert(a[i] == x);
        } else {
            assert(b[i - a.len()] == x);
        }
    }
    if a.contains(x) {
        let i = choose|i: int| 0 <= i < a.len() && a[i] == x;
        assert((a + b)[i] == x);
    }
    if b.contains(x) {
        let i = choose|i: int| 0 <= i < b.len() && b[i] == x;
        assert((a + b)[a.len() + i] == x);
    }
}

/// One step of [`legal_assignment`] at the first blocker: all the damage
/// on it; or at least its lethal damage (short of all) and a legal
/// assignment of the rest to the blockers after it; or, with trample and
/// no blocker after it, at least its lethal damage and the rest left over.
proof fn lemma_legal_step(rem: nat, bl: Seq<(ObjectId, u32)>, e: Seq<(ObjectId, u32)>, t: bool)
    requires
        0 < rem <= u32::MAX,
        bl.len() > 0,
    ensures
        legal_assignment(rem, bl, e, t) <==> (e =~= seq![(bl[0].0, rem as u32)] || (e.len() >= 1 && e[0].0 == bl[0].0
            && lethal_floor(bl[0]) <= e[0].1 < rem && legal_assignment(
            (rem - e[0].1) as nat,
            bl.drop_first(),
            e.drop_first(),
            t,
        )) || (t && bl.len() == 1 && e.len() == 1 && e[0].0 == bl[0].0 && lethal_floor(bl[0]) <= e[0].1 < rem)),
{
    let lb = lethal_floor(bl[0]);
    let e2 = e.drop_first();
    let b2 = bl.drop_first();
    if e.len() >= 1 {
        assert(assigned_total(e) == e[0].1 + assigned_total(e2));
    }
    if legal_assignment(rem, bl, e, t) {
        assert(e[0].0 == bl[0].0 && e[0].1 >= 1);
        if e.len() == 1 {
            assert(e2.len() == 0);
            assert(assigned_total(e2) == 0);
            if assigned_total(e) == rem {
                assert(e =~= seq![(bl[0].0, rem as u32)]) by {
                    assert(e[0] == (bl[0].0, rem as u32));
                }
            }
        } else {
            assert(e[0].1 >= lb);
            assert forall|i: int| 0 <= i < e2.len() implies (#[trigger] e2[i]).1 >= 1 by {
                assert(e2[i] == e[i + 1]);
            }
            lemma_total_at_least_len(e2);
            let r2 = (rem - e[0].1) as nat;
            assert(e[0].1 < rem);
            assert(r2 > 0);
            assert forall|i: int| 0 <= i < e2.len() implies (#[trigger] e2[i]).0 == b2[i].0 && e2[i].1 >= 1 by {
                assert(e2[i] == e[i + 1]);
                assert(b2[i] == bl[i + 1]);
            }
            assert forall|i: int| 0 <= i < e2.len() - 1 implies (#[trigger] e2[i]).1 >= lethal_floor(b2[i]) by {
                assert(e2[i] == e[i + 1]);
                assert(b2[i] == bl[i + 1]);
            }
            if assigned_total(e) != rem {
                assert(e2[e2.len() - 1] == e[e.len() - 1]);
                assert(b2[e2.len() - 1] == bl[e.len() - 1]);
            }
            assert(legal_assignment(r2, b2, e2, t));
        }
    }
    if e =~= seq![(bl[0].0, rem as u32)] {
        assert(e2 =~= Seq::<(ObjectId, u32)>::empty());
        assert(assigned_total(e2) == 0);
        assert(legal_assignment(rem, bl, e, t));
    }
    if e.len() >= 1 && e[0].0 == bl[0].0 && lb <= e[0].1 < rem && legal_assignment((rem - e[0].1) as nat, b2, e2, t) {
        let r2 = (rem - e[0].1) as nat;
        assert(e2.len() >= 1);
        assert forall|i: int| 0 <= i < e.len() implies (#[trigger] e[i]).0 == bl[i].0 && e[i].1 >= 1 by {
            if i > 0 {
                assert(e2[i - 1] == e[i]);
                assert(b2[i - 1] == bl[i]);
            }
        }
        assert forall|i: int| 0 <= i < e.len() - 1 implies (#[trigger] e[i]).1 >= lethal_floor(bl[i]) by {
            if i > 0 {
                assert(e2[i - 1] == e[i]);
                assert(b2[i - 1] == bl[i]);
            }
        }
        if assigned_total(e2) != r2 {
            assert(e2[e2.len() - 1] == e[e.len() - 1]);
            assert(b2[e2.len() - 1] == bl[e.len() - 1]);
        }
        assert(legal_assignment(rem, bl, e, t));
    }
    if t && bl.len() == 1 && e.len() == 1 && e[0].0 == bl[0].0 && lb <= e[0].1 < rem {
        assert(e2.len() == 0);
        assert(assigned_total(e2) == 0);
        assert(legal_assignment(rem, bl, e, t));
    }
}

/// What [`distributions`] holds: `cur` followed by a legal assignment of
/// `rem` damage to `bl`.
proof fn lemma_distributions_exact(
    rem: nat,
    bl: Seq<(ObjectId, u32)>,
    cur: Seq<(ObjectId, u32)>,
    t: bool,
    d: Seq<(ObjectId, u32)>,
)
    requires
        rem <= u32::MAX,
    ensures
        distributions(rem, bl, cur, t).contains(d) <==> (d.len() >= cur.len() && d.take(cur.len() as int) == cur
            && legal_assignment(rem, bl, d.skip(cur.len() as int), t)),
    decreases bl.len(), 1nat, 0nat,
{
    let n = cur.len() as int;
    let dd = distributions(rem, bl, cur, t);
    if rem == 0 {
        if dd.contains(d) {
            assert(dd[0] == cur);
            assert(d == cur);
            assert(d.take(n) =~= cur);
            assert(d.skip(n).len() == 0);
        }
        if d.len() >= cur.len() && d.take(n) == cur && legal_assignment(rem, bl, d.skip(n), t) {
            assert(d =~= cur);
            assert(dd[0] == d);
        }
    } else if bl.len() == 0 {
        assert(dd.len() == 0);
    } else {
        let lb = lethal_floor(bl[0]);
        let t1 = cur.push((bl[0].0, rem as u32));
        let f = distributions_from(lb, rem, bl, cur, t);
        let tl: Seq<Seq<(ObjectId, u32)>> = if t && bl.len() == 1 {
            overflow_tail(lb, rem, bl[0].0, cur)
        } else {
            Seq::empty()
        };
        assert(dd == seq![t1] + f + tl);
        lemma_contains_concat(seq![t1] + f, tl, d);
        lemma_contains_concat(seq![t1], f, d);
        lemma_distributions_from_exact(lb, rem, bl, cur, t, d);
        let e = d.skip(n);
        let in_one = seq![t1].contains(d);
        if in_one {
            assert(seq![t1][0] == d);
        }
        if d == t1 {
            assert(seq![t1][0] == d);
        }
        assert(in_one <==> d == t1);
        if d.len() >= cur.len() && d.take(n) == cur {
            assert(e.len() == d.len() - n);
            if e.len() >= 1 {
                assert(e[0] == d[n]);
                assert(e.drop_first() =~= d.skip(n + 1));
            }
            assert(d == t1 <==> e =~= seq![(bl[0].0, rem as u32)]) by {
                if d == t1 {
                    assert(e =~= seq![(bl[0].0, rem as u32)]);
                }
                if e =~= seq![(bl[0].0, rem as u32)] {
                    assert(d =~= t1);
                }
            }
            if tl.contains(d) {
                let k = choose|k: int| 0 <= k < tl.len() && tl[k] == d;
                assert(d == cur.push((bl[0].0, (lb + k) as u32)));
                assert(e =~= seq![(bl[0].0, (lb + k) as u32)]);
            }
            if t && bl.len() == 1 && e.len() == 1 && e[0].0 == bl[0].0 && lb <= e[0].1 < rem {
                let k = e[0].1 - lb;
                assert(tl[k] =~= d) by {
                    assert(d =~= cur.push(e[0]));
                }
            }
            lemma_legal_step(rem, bl, e, t);
        } else {
            if tl.contains(d) {
                let k = choose|k: int| 0 <= k < tl.len() && tl[k] == d;
                assert(d == cur.push((bl[0].0, (lb + k) as u32)));
                assert(d.take(n) =~= cur);
            }
            if d == t1 {
                assert(d.take(n) =~= cur);
            }
        }
    }
}

/// What [`distributions_from`] holds: `cur`, then an amount from `k` up to
/// `rem - 1` on the first blocker, then a legal assignment of the rest to
/// the blockers after it.
proof fn lemma_distributions_from_exact(
    k: nat,
    rem: nat,
    bl: Seq<(ObjectId, u32)>,
    cur: Seq<(ObjectId, u32)>,
    t: bool,
    d: Seq<(ObjectId, u32)>,
)
    requires
        rem <= u32::MAX,
        bl.len() > 0,
    ensures
        distributions_from(k, rem, bl, cur, t).contains(d) <==> (d.len() > cur.len() && d.take(cur.len() as int)
            == cur && d[cur.len() as int].0 == bl[0].0 && k <= d[cur.len() as int].1 < rem && legal_assignment(
            (rem - d[cur.len() as int].1) as nat,
            bl.drop_first(),
            d.skip(cur.len() as int + 1),
            t,
        )),
    decreases bl.len(), 0nat, if k < rem {
        (rem - k) as nat
    } else {
        0nat
    },
{
    let n = cur.len() as int;
    if k >= rem {
        assert(distributions_from(k, rem, bl, cur, t).len() == 0);
    } else {
        let cur2 = cur.push((bl[0].0, k as u32));
        let a = distributions((rem - k) as nat, bl.drop_first(), cur2, t);
        let b = distributions_from(k + 1, rem, bl, cur, t);
        assert(distributions_from(k, rem, bl, cur, t) == a + b);
        lemma_contains_concat(a, b, d);
        lemma_distributions_exact((rem - k) as nat, bl.drop_first(), cur2, t, d);
        lemma_distributions_from_exact(k + 1, rem, bl, cur, t, d);
        if d.len() >= cur2.len() && d.take(n + 1) == cur2 {
            assert(d.take(n) =~= d.take(n + 1).take(n));
            assert(d.take(n + 1).take(n) =~= cur);
            assert(d[n] == d.take(n + 1)[n]);
        }
        if d.len() > cur.len() && d.take(n) == cur && d[n] == (bl[0].0, k as u32) {
            assert(d.take(n + 1) =~= cur2);
        }
    }
}

/// The distributions of `power` combat damage over `bl` are exactly the
/// legal assignments (CR 510.1c, 702.19b): a trampler may leave damage
/// over at the last blocker however many blockers come before it, and no
/// blocker is passed over with less than its lethal damage.
pub proof fn law_distributions_are_the_legal_assignments(
    power: nat,
    bl: Seq<(ObjectId, u32)>,
    trample: bool,
    e: Seq<(ObjectId, u32)>,
)
    requires
        power <= u32::MAX,
    ensures
        distributions(power, bl, Seq::empty(), trample).contains(e) <==> legal_assignment(power, bl, e, trample),
{
    lemma_distributions_exact(power, bl, Seq::empty(), trample, e);
    assert(e.take(0) =~= Seq::<(ObjectId, u32)>::empty());
    assert(e.skip(0) =~= e);
}

/// A copy of `v`.
fn copy_assignments(v: &Vec<(ObjectId, u32)>) -> (r: Vec<(ObjectId, u32)>)
    ensures
        r@ == v@,
{
    let mut r: Vec<(ObjectId, u32)> = Vec::new();
    let mut i: usize = 0;
    while i < v.len()
        invariant
            i <= v@.len(),
            r@ == v@.take(i as int),
        decreases v@.len() - i,
    {
        r.push(v[i]);
        proof {
            assert(r@ =~= v@.take(i + 1));
        }
        i = i + 1;
    }
    proof {
        assert(v@.take(i as int) =~= v@);
    }
    r
}

/// Append to `out` the distributions of `remaining` damage over the
/// blockers of `bl` from `from` on, after `current`, stopping once `out`
/// holds `MAX_COMBAT_ENUM` of them.
fn push_distributions(
    remaining: u32,
    bl: &Vec<(ObjectId, u32)>,
    from: usize,
    current: Vec<(ObjectId, u32)>,
    trample: bool,
    out: &mut Vec<Vec<(ObjectId, u32)>>,
)
    requires
        from <= bl@.len(),
        old(out)@.len() <= MAX_COMBAT_ENUM,
    ensures
        final(out)@.len() <= MAX_COMBAT_ENUM,
        final(out).deep_view() == spec_cap(
            old(out).deep_view() + distributions(remaining as nat, bl@.skip(from as int), current@, trample),
            MAX_COMBAT_ENUM as nat,
        ),
    decreases bl@.len() - from,
{
    let ghost start = out.deep_view();
    let ghost rest = bl@.skip(from as int);
    let ghost whole = distributions(remaining as nat, rest, current@, trample);
    if out.len() >= MAX_COMBAT_ENUM {
        proof {
            assert(spec_cap(start + whole, MAX_COMBAT_ENUM as nat) =~= start);
        }
        return;
    }
    if remaining == 0 {
        let ghost cv = current@;
        let ghost ov = out@;
        proof {
            assert(current.deep_view() =~= cv);
        }
        out.push(current);
        proof {
            assert(out@ == ov.push(out@[ov.len() as int]));
            assert(out.deep_view() =~= start + whole);
        }
        return;
    }
    if from == bl.len() {
        proof {
            assert(rest.len() == 0);
            assert(start + whole =~= start);
        }
        return;
    }
    let (blk, lethal) = bl[from];
    let lb: u32 = if lethal >= 1 {
        lethal
    } else {
        1
    };
    proof {
        assert(rest[0] == (blk, lethal));
        assert(rest.drop_first() =~= bl@.skip(from + 1));
    }
    let ghost from_part = distributions_from(lb as nat, remaining as nat, rest, current@, trample);
    let ghost tail_part: Seq<Seq<(ObjectId, u32)>> = if trample && rest.len() == 1 {
        overflow_tail(lb as nat, remaining as nat, blk, current@)
    } else {
        Seq::empty()
    };
    let mut term = copy_assignments(&current);
    term.push((blk, remaining));
    let ghost tv = term@;
    let ghost ov = out@;
    proof {
        assert(term.deep_view() =~= tv);
    }
    out.push(term);
    proof {
        assert(out@ == ov.push(out@[ov.len() as int]));
        assert(out.deep_view() =~= start + seq![tv]);
        assert(whole == seq![tv] + from_part + tail_part);
        assert(spec_cap(out.deep_view() + (from_part + tail_part), MAX_COMBAT_ENUM as nat) == spec_cap(
            start + whole,
            MAX_COMBAT_ENUM as nat,
        )) by {
            assert(start + whole =~= out.deep_view() + (from_part + tail_part));
        }
    }
    let nf = from + 1;
    let mut k: u32 = lb;
    while k < remaining
        invariant
            nf == from + 1,
            from < bl@.len(),
            rest == bl@.skip(from as int),
            rest[0] == (blk, lethal),
            rest.drop_first() == bl@.skip(from + 1),
            lb >= 1,
            lb <= k,
            lb == (if lethal >= 1 {
                lethal
            } else {
                1
            }),
            out@.len() <= MAX_COMBAT_ENUM,
            start == old(out).deep_view(),
            whole == distributions(remaining as nat, bl@.skip(from as int), current@, trample),
            spec_cap(
                out.deep_view() + (distributions_from(k as nat, remaining as nat, rest, current@, trample) + tail_part),
                MAX_COMBAT_ENUM as nat,
            ) == spec_cap(start + whole, MAX_COMBAT_ENUM as nat),
        decreases remaining - k,
    {
        let ghost now = out.deep_view();
        let ghost fk = distributions_from(k as nat, remaining as nat, rest, current@, trample);
        if out.len() >= MAX_COMBAT_ENUM {
            proof {
                assert(spec_cap(now + (fk + tail_part), MAX_COMBAT_ENUM as nat) =~= now);
            }
                return;
        }
        let mut next = copy_assignments(&current);
        next.push((blk, k));
        let ghost nv = next@;
        push_distributions(remaining - k, bl, nf, next, trample, out);
        proof {
            let d = distributions((remaining - k) as nat, rest.drop_first(), nv, trample);
            let f1 = distributions_from((k + 1) as nat, remaining as nat, rest, current@, trample);
            assert(nv == current@.push((rest[0].0, k)));
            assert(fk == d + f1);
            lemma_cap_assoc(now, d, f1 + tail_part, MAX_COMBAT_ENUM as nat);
            assert(now + (fk + tail_part) =~= now + (d + (f1 + tail_part)));
        }
        k = k + 1;
    }
    proof {
        assert(distributions_from(k as nat, remaining as nat, rest, current@, trample) =~= Seq::<Seq<(ObjectId, u32)>>::empty());
        assert(Seq::<Seq<(ObjectId, u32)>>::empty() + tail_part =~= tail_part);
    }
    if trample && from + 1 == bl.len() {
        let mut k: u32 = lb;
        while k < remaining
            invariant
                lb <= k,
                out@.len() <= MAX_COMBAT_ENUM,
                start == old(out).deep_view(),
                whole == distributions(remaining as nat, bl@.skip(from as int), current@, trample),
                spec_cap(
                    out.deep_view() + overflow_tail(k as nat, remaining as nat, blk, current@),
                    MAX_COMBAT_ENUM as nat,
                ) == spec_cap(start + whole, MAX_COMBAT_ENUM as nat),
            decreases remaining - k,
        {
            let ghost now = out.deep_view();
            let ghost tk = overflow_tail(k as nat, remaining as nat, blk, current@);
            if out.len() >= MAX_COMBAT_ENUM {
                proof {
                    assert(spec_cap(now + tk, MAX_COMBAT_ENUM as nat) =~= now);
                }
                        return;
            }
            let mut next = copy_assignments(&current);
            next.push((blk, k));
            let ghost nv = next@;
            let ghost ov = out@;
            proof {
                assert(next.deep_view() =~= nv);
            }
            out.push(next);
            proof {
                assert(out@ == ov.push(out@[ov.len() as int]));
                assert(out.deep_view() =~= now.push(nv));
                assert(tk[0] == nv);
                assert(tk =~= seq![nv] + overflow_tail((k + 1) as nat, remaining as nat, blk, current@));
                assert(now + tk =~= out.deep_view() + overflow_tail((k + 1) as nat, remaining as nat, blk, current@));
            }
            k = k + 1;
        }
        proof {
            assert(overflow_tail(k as nat, remaining as nat, blk, current@) =~= Seq::<Seq<(ObjectId, u32)>>::empty());
            assert(out.deep_view() + Seq::<Seq<(ObjectId, u32)>>::empty() =~= out.deep_view());
        }
    } else {
        proof {
            assert(tail_part =~= Seq::<Seq<(ObjectId, u32)>>::empty());
            assert(out.deep_view() + Seq::<Seq<(ObjectId, u32)>>::empty() =~= out.deep_view());
        }
    }
}

/// Every way to distribute `power` combat damage over `blockers`, in
/// damage-assignment order, each with the damage lethal to it (CR
/// 510.1c), with or without trample, as [`distributions`] lists them,
/// cut off after `MAX_COMBAT_ENUM` of them. The first one, when there
/// is a blocker, puts all the damage on the first blocker.
pub fn enumerate_distributions(power: u32, blockers: &Vec<(ObjectId, u32)>, trample: bool) -> (out: Vec<
    Vec<(ObjectId, u32)>,
>)
    ensures
        out.deep_view() == spec_cap(
            distributions(power as nat, blockers@, Seq::empty(), trample),
            MAX_COMBAT_ENUM as nat,
        ),
        forall|i: int|
            0 <= i < out.deep_view().len() ==> legal_assignment(
                power as nat,
                blockers@,
                #[trigger] out.deep_view()[i],
                trample,
            ),
        out@.len() < MAX_COMBAT_ENUM ==> forall|e: Seq<(ObjectId, u32)>|
            legal_assignment(power as nat, blockers@, e, trample) ==> #[trigger] out.deep_view().contains(e),
        power > 0 && blockers@.len() > 0 ==> out@.len() > 0 && out.deep_view()[0] == seq![(blockers@[0].0, power)],
{
    let mut out: Vec<Vec<(ObjectId, u32)>> = Vec::new();
    proof {
        assert(out.deep_view() =~= Seq::<Seq<(ObjectId, u32)>>::empty());
        assert(blockers@.skip(0) =~= blockers@);
    }
    push_distributions(power, blockers, 0, Vec::new(), trample, &mut out);
    proof {
        let dd = distributions(power as nat, blockers@, Seq::empty(), trample);
        assert(Seq::<Seq<(ObjectId, u32)>>::empty() + dd =~= dd);
        assert forall|i: int| 0 <= i < out.deep_view().len() implies legal_assignment(
            power as nat,
            blockers@,
            #[trigger] out.deep_view()[i],
            trample,
        ) by {
            assert(out.deep_view()[i] == dd[i]);
            assert(dd.contains(dd[i]));
            law_distributions_are_the_legal_assignments(power as nat, blockers@, trample, dd[i]);
        }
        if power > 0 && blockers@.len() > 0 {
            assert(dd[0] =~= seq![(blockers@[0].0, power)]);
            assert(out.deep_view()[0] == dd[0]);
        }
        if out@.len() < MAX_COMBAT_ENUM {
            assert(out.deep_view() == dd);
            assert forall|e: Seq<(ObjectId, u32)>| legal_assignment(power as nat, blockers@, e, trample) implies #[trigger] out.deep_view().contains(e) by {
                law_distributions_are_the_legal_assignments(power as nat, blockers@, trample, e);
            }
        }
    }
    out
}

/// The toughness of `o`, printed and with counters, fits an `i32`.
pub open spec fn toughness_fits(o: GameObject) -> bool {
    &&& spec_raw_toughness(o, None) matches Some(v) ==> i32::MIN <= v <= i32::MAX
    &&& o.characteristics.toughness matches Some(t) ==> (t.spec_resolve(None) matches Some(v) ==> i32::MIN <= v
        <= i32::MAX)
}

/// The damage lethal to `o`: its toughness with counters less the damage
/// already marked on it, 0 when nothing is left or it has no toughness.
pub open spec fn remaining_lethal(o: GameObject) -> nat {
    match spec_raw_toughness(o, None) {
        Some(t) => if t > o.damage_marked {
            (t - o.damage_marked) as nat
        } else {
            0
        },
        None => 0,
    }
}

/// Each of `blockers` with the damage lethal to it: 1 under deathtouch
/// (CR 702.2c), else [`remaining_lethal`] (0 for an object that is gone).
pub open spec fn lethal_pairs(s: GameState, blockers: Seq<ObjectId>, deathtouch: bool) -> Seq<(ObjectId, u32)>
    decreases blockers.len(),
{
    if blockers.len() == 0 {
        Seq::empty()
    } else {
        let id = blockers.last();
        let lethal: u32 = if deathtouch {
            1
        } else if s.objects@.contains_key(id) {
            remaining_lethal(s.objects@[id]) as u32
        } else {
            0
        };
        lethal_pairs(s, blockers.drop_last(), deathtouch).push((id, lethal))
    }
}

/// The combat damage `id` deals: its power, 0 when negative or unknown.
pub open spec fn damage_power(s: GameState, id: ObjectId) -> nat {
    if s.objects@.contains_key(id) {
        match crate::layers::clamp_opt(crate::layers::spec_power_of(s.objects@[id], s.continuous_effects@)) {
            Some(v) => if v > 0 {
                v as nat
            } else {
                0
            },
            None => 0,
        }
    } else {
        0
    }
}

/// Every legal distribution of `attacker`'s combat damage over
/// `blockers`, its blockers still in combat in damage-assignment order
/// (CR 510.1c), with its deathtouch and trample, as
/// [`enumerate_distributions`] gives them.
pub fn enumerate_distributions_for_attacker(state: &GameState, attacker: ObjectId, blockers: &Vec<ObjectId>) -> (out: Vec<
    Vec<(ObjectId, u32)>,
>)
    requires
        state.wf(),
        forall|i: int|
            0 <= i < blockers@.len() && state.objects@.contains_key(#[trigger] blockers@[i]) ==> toughness_fits(
                state.objects@[blockers@[i]],
            ),
    ensures
        out.deep_view() == spec_cap(
            distributions(
                damage_power(*state, attacker),
                lethal_pairs(*state, blockers@, state.objects@.contains_key(attacker) && spec_has_keyword(
                    state.objects@[attacker],
                    state.continuous_effects@,
                    KeywordAbility::Deathtouch,
                )),
                Seq::empty(),
                state.objects@.contains_key(attacker) && spec_has_keyword(
                    state.objects@[attacker],
                    state.continuous_effects@,
                    KeywordAbility::Trample,
                ),
            ),
            MAX_COMBAT_ENUM as nat,
        ),
{
    let power: u32 = match state.computed_power(attacker) {
        Some(v) => if v > 0 {
            v as u32
        } else {
            0
        },
        None => 0,
    };
    let deathtouch = state.has_keyword(attacker, &KeywordAbility::Deathtouch);
    let trample = state.has_keyword(attacker, &KeywordAbility::Trample);
    let mut ordered: Vec<(ObjectId, u32)> = Vec::new();
    let mut i: usize = 0;
    while i < blockers.len()
        invariant
            state.wf(),
            i <= blockers@.len(),
            forall|j: int|
                0 <= j < blockers@.len() && state.objects@.contains_key(#[trigger] blockers@[j]) ==> toughness_fits(
                    state.objects@[blockers@[j]],
                ),
            ordered@ == lethal_pairs(*state, blockers@.take(i as int), deathtouch),
        decreases blockers@.len() - i,
    {
        proof {
            assert(blockers@.take(i + 1).drop_last() =~= blockers@.take(i as int));
            assert(blockers@.take(i + 1).last() == blockers@[i as int]);
        }
        let id = blockers[i];
        let lethal: u32 = if deathtouch {
            1
        } else {
            match state.objects.get(id) {
                None => 0,
                Some(o) => {
                    proof {
                        assert(toughness_fits(*o));
                    }
                    match o.raw_toughness_with_counters(None) {
                        Some(t) => if t > 0 && (t as i64) > (o.damage_marked as i64) {
                            (t as i64 - o.damage_marked as i64) as u32
                        } else {
                            0
                        },
                        None => 0,
                    }
                },
            }
        };
        ordered.push((id, lethal));
        i = i + 1;
    }
    proof {
        assert(blockers@.take(i as int) =~= blockers@);
    }
    enumerate_distributions(power, &ordered, trample)
}

// =============================================================================
// Answers to a pending choice
// =============================================================================

/// `s` as (key, id) pairs keyed by the id.
pub open spec fn keyed_ids(s: Seq<ObjectId>) -> Seq<(u128, ObjectId)> {
    s.map_values(|c: ObjectId| (c as u128, c))
}

/// The ids of `s`.
pub open spec fn pair_ids(s: Seq<(u128, ObjectId)>) -> Seq<ObjectId> {
    s.map_values(|p: (u128, ObjectId)| p.1)
}

/// The `n` lowest ids of `s` (all of them when fewer), lowest first.
pub open spec fn lowest_ids(s: Seq<ObjectId>, n: nat) -> Seq<ObjectId> {
    let sorted = pair_ids(sorted_by_key(keyed_ids(s)));
    sorted.take(if n <= sorted.len() { n as int } else { sorted.len() as int })
}

/// Some plan pays `cost` (read without `{X}`) out of `pool`, spending
/// freely.
pub open spec fn payable(cost: ManaCost, pool: crate::mana::ManaPool) -> bool {
    exists|p: ManaPaymentPlan|
        #[trigger] plan_pays(
            expanded_components(cost, None),
            pool.pool@,
            SpendContext { casting_kind: CastingKind::Other },
            p,
        )
}

/// The answers offered to the pending choice of `s`, then concede: the
/// lowest `min` candidates for a pick; pay (only when some plan pays the
/// cost) and decline; yes and no.
pub open spec fn resolution_ok(s: GameState, r: Seq<Action>) -> bool {
    let pc = s.pending_choice->0;
    match pc.kind {
        ChoiceKind::PickCards { candidates, min, .. } => r.len() == 2 && (r[0] matches Action::SubmitResolutionChoice {
            response: ChoiceResponse::PickCards { picked },
        } && picked@ == lowest_ids(candidates@, min as nat)) && r[1] is Concede,
        ChoiceKind::PayOrDecline { cost } => if payable(cost, s.players@[pc.choosing_player as int].mana_pool) {
            r == seq![
                Action::SubmitResolutionChoice { response: ChoiceResponse::PayOrDecline { pay: true } },
                Action::SubmitResolutionChoice { response: ChoiceResponse::PayOrDecline { pay: false } },
                Action::Concede,
            ]
        } else {
            r == seq![
                Action::SubmitResolutionChoice { response: ChoiceResponse::PayOrDecline { pay: false } },
                Action::Concede,
            ]
        },
        ChoiceKind::YesNo => r == seq![
            Action::SubmitResolutionChoice { response: ChoiceResponse::YesNo { answer: true } },
            Action::SubmitResolutionChoice { response: ChoiceResponse::YesNo { answer: false } },
            Action::Concede,
        ],
    }
}

/// The `n` lowest ids of `v`, lowest first.
fn lowest_id_list(v: &Vec<ObjectId>, n: usize) -> (r: Vec<ObjectId>)
    ensures
        r@ == lowest_ids(v@, n as nat),
{
    let mut keyed: Vec<(u128, ObjectId)> = Vec::new();
    let mut i: usize = 0;
    while i < v.len()
        invariant
            i <= v@.len(),
            keyed@ == keyed_ids(v@.take(i as int)),
        decreases v@.len() - i,
    {
        keyed.push((v[i] as u128, v[i]));
        proof {
            assert(keyed@ =~= keyed_ids(v@.take(i + 1)));
        }
        i = i + 1;
    }
    proof {
        assert(v@.take(i as int) =~= v@);
    }
    let sorted = sort_by_key_stable(keyed);
    let ghost ids = pair_ids(sorted@);
    let mut r: Vec<ObjectId> = Vec::new();
    let mut j: usize = 0;
    while j < sorted.len() && j < n
        invariant
            j <= sorted@.len(),
            j <= n,
            ids == pair_ids(sorted@),
            r@ == ids.take(j as int),
        decreases sorted@.len() - j,
    {
        r.push(sorted[j].1);
        proof {
            assert(r@ =~= ids.take(j + 1));
        }
        j = j + 1;
    }
    r
}

/// The answers offered to the pending choice, then concede, as
/// [`resolution_ok`] describes them.
pub fn legal_resolution_choice_actions(state: &GameState) -> (r: Vec<Action>)
    requires
        state.pending_choice is Some,
        state.pending_choice->0.choosing_player < state.players@.len(),
        state.pending_choice->0.kind matches ChoiceKind::PayOrDecline { cost } ==> !spec_has_x(cost.components@),
    ensures
        resolution_ok(*state, r@),
{
    let mut out: Vec<Action> = Vec::new();
    match &state.pending_choice {
        None => {},
        Some(pc) => match &pc.kind {
            ChoiceKind::PickCards { candidates, min, .. } => {
                let picked = lowest_id_list(candidates, *min);
                out.push(Action::SubmitResolutionChoice { response: ChoiceResponse::PickCards { picked } });
                out.push(Action::Concede);
            },
            ChoiceKind::PayOrDecline { cost } => {
                let ctx = SpendContext::unrestricted();
                let pool = &state.player(pc.choosing_player).mana_pool;
                let plans = enumerate_payment_plans(cost, pool, None, &ctx);
                proof {
                    if plans@.len() > 0 {
                        assert(plan_pays(expanded_components(*cost, None), pool.pool@, ctx, plans@[0]));
                    }
                }
                if plans.len() > 0 {
                    out.push(Action::SubmitResolutionChoice { response: ChoiceResponse::PayOrDecline { pay: true } });
                }
                out.push(Action::SubmitResolutionChoice { response: ChoiceResponse::PayOrDecline { pay: false } });
                out.push(Action::Concede);
                proof {
                    if plans@.len() > 0 {
                        assert(out@ =~= seq![
                            Action::SubmitResolutionChoice { response: ChoiceResponse::PayOrDecline { pay: true } },
                            Action::SubmitResolutionChoice { response: ChoiceResponse::PayOrDecline { pay: false } },
                            Action::Concede,
                        ]);
                    } else {
                        assert(out@ =~= seq![
                            Action::SubmitResolutionChoice { response: ChoiceResponse::PayOrDecline { pay: false } },
                            Action::Concede,
                        ]);
                    }
                }
            },
            ChoiceKind::YesNo => {
                out.push(Action::SubmitResolutionChoice { response: ChoiceResponse::YesNo { answer: true } });
                out.push(Action::SubmitResolutionChoice { response: ChoiceResponse::YesNo { answer: false } });
                out.push(Action::Concede);
                proof {
                    assert(out@ =~= seq![
                        Action::SubmitResolutionChoice { response: ChoiceResponse::YesNo { answer: true } },
                        Action::SubmitResolutionChoice { response: ChoiceResponse::YesNo { answer: false } },
                        Action::Concede,
                    ]);
                }
            },
        },
    }
    out
}

// =============================================================================
// Declaring blockers
// =============================================================================

/// `o` can block: an untapped battlefield creature of `defender`
/// (CR 509.1a).
pub open spec fn able_to_block(defender: PlayerId, o: GameObject) -> bool {
    o.zone == Zone::Battlefield && o.controller == defender && o.characteristics.types.has_bits(TypeLine::CREATURE)
        && !o.status.tapped
}

/// The objects of `objs` able to block, in order.
pub open spec fn able_blockers(objs: Seq<GameObject>, defender: PlayerId) -> Seq<GameObject>
    decreases objs.len(),
{
    if objs.len() == 0 {
        Seq::empty()
    } else {
        let rest = able_blockers(objs.drop_last(), defender);
        if able_to_block(defender, objs.last()) {
            rest.push(objs.last())
        } else {
            rest
        }
    }
}

/// There are no more blockers than objects.
proof fn lemma_able_blockers_len(objs: Seq<GameObject>, defender: PlayerId)
    ensures
        able_blockers(objs, defender).len() <= objs.len(),
    decreases objs.len(),
{
    if objs.len() > 0 {
        lemma_able_blockers_len(objs.drop_last(), defender);
    }
}

/// Every keyword ability, in declaration order.
pub open spec fn all_keywords() -> Seq<KeywordAbility> {
    seq![
        KeywordAbility::Flying,
        KeywordAbility::FirstStrike,
        KeywordAbility::DoubleStrike,
        KeywordAbility::Deathtouch,
        KeywordAbility::Defender,
        KeywordAbility::Flash,
        KeywordAbility::Haste,
        KeywordAbility::Hexproof,
        KeywordAbility::Indestructible,
        KeywordAbility::Lifelink,
        KeywordAbility::Menace,
        KeywordAbility::Reach,
        KeywordAbility::Shroud,
        KeywordAbility::Trample,
        KeywordAbility::Vigilance,
    ]
}

/// `a` and `b` are interchangeable blockers: the same card with the same
/// keyword abilities.
pub open spec fn same_profile(s: GameState, a: GameObject, b: GameObject) -> bool {
    a.card_id == b.card_id && forall|k: KeywordAbility|
        #[trigger] spec_has_keyword(a, s.continuous_effects@, k) == spec_has_keyword(b, s.continuous_effects@, k)
}

/// The first position `j` of `el`, from `from` on and up to `i`, whose
/// object is interchangeable with `el[i]`.
pub open spec fn first_same_from(s: GameState, el: Seq<GameObject>, i: int, from: int) -> int
    decreases i - from,
{
    if from >= i {
        i
    } else if same_profile(s, el[from], el[i]) {
        from
    } else {
        first_same_from(s, el, i, from + 1)
    }
}

/// Each blocker of `el` with the position of the first one interchangeable
/// with it.
pub open spec fn classed(s: GameState, el: Seq<GameObject>) -> Seq<(ObjectId, u32)> {
    Seq::new(el.len(), |i: int| (el[i].id, first_same_from(s, el, i, 0) as u32))
}

/// Does object `id` have keyword `k`?
pub open spec fn id_has_keyword(s: GameState, id: ObjectId, k: KeywordAbility) -> bool {
    s.objects@.contains_key(id) && spec_has_keyword(s.objects@[id], s.continuous_effects@, k)
}

/// `blk` can block attacker `atk`: a flyer is blocked only by creatures
/// with flying or reach (CR 702.9b, 702.17b).
pub open spec fn can_block_attacker(s: GameState, blk: GameObject, atk: ObjectId) -> bool {
    !(id_has_keyword(s, atk, KeywordAbility::Flying) && !spec_has_keyword(blk, s.continuous_effects@, KeywordAbility::Flying)
        && !spec_has_keyword(blk, s.continuous_effects@, KeywordAbility::Reach))
}

/// The entries among the first `n` of `el` / `cl` that can block `atk`.
pub open spec fn block_candidates(s: GameState, el: Seq<GameObject>, cl: Seq<(ObjectId, u32)>, atk: ObjectId, n: int) -> Seq<
    (ObjectId, u32),
>
    decreases n,
{
    if n <= 0 {
        Seq::empty()
    } else {
        let rest = block_candidates(s, el, cl, atk, n - 1);
        if can_block_attacker(s, el[n - 1], atk) {
            rest.push(cl[n - 1])
        } else {
            rest
        }
    }
}

/// The fewest creatures that may block `atk`: two for menace (CR 702.110b),
/// else one.
pub open spec fn min_blockers(s: GameState, atk: ObjectId) -> nat {
    if id_has_keyword(s, atk, KeywordAbility::Menace) {
        2
    } else {
        1
    }
}

/// The class keys of `c`.
pub open spec fn class_keys(c: Seq<(ObjectId, u32)>) -> Seq<u32> {
    c.map_values(|p: (ObjectId, u32)| p.1)
}

/// The blocks of `sub`, each on `atk`.
pub open spec fn block_decl(sub: Seq<(ObjectId, u32)>, atk: ObjectId) -> Seq<BlockerDeclaration> {
    sub.map_values(|p: (ObjectId, u32)| BlockerDeclaration { blocker: p.0, blocking: atk })
}

/// `out` with a declaration on `atk` for each subset of `subs` in turn
/// that is big enough, until `MAX_COMBAT_ENUM` declarations are there.
pub open spec fn add_blocks(
    out: Seq<Seq<BlockerDeclaration>>,
    subs: Seq<Seq<(ObjectId, u32)>>,
    atk: ObjectId,
    min: nat,
) -> Seq<Seq<BlockerDeclaration>>
    decreases subs.len(),
{
    if subs.len() == 0 || out.len() >= MAX_COMBAT_ENUM {
        out
    } else {
        let sub = subs[0];
        let next = if sub.len() > 0 && sub.len() >= min {
            out.push(block_decl(sub, atk))
        } else {
            out
        };
        add_blocks(next, subs.drop_first(), atk, min)
    }
}

/// The subsets of the candidates `c`, one per choice of interchangeable
/// blockers, the empty one first, at most `MAX_COMBAT_ENUM` of them.
pub open spec fn block_subsets(c: Seq<(ObjectId, u32)>) -> Seq<Seq<(ObjectId, u32)>> {
    spec_cap(spec_group_subsets(spec_groups(c, class_keys(c)), c.len(), 0), MAX_COMBAT_ENUM as nat)
}

/// `out` with the declarations on each attacker of `atts` in turn.
pub open spec fn blocks_from(
    s: GameState,
    el: Seq<GameObject>,
    cl: Seq<(ObjectId, u32)>,
    atts: Seq<ObjectId>,
    out: Seq<Seq<BlockerDeclaration>>,
) -> Seq<Seq<BlockerDeclaration>>
    decreases atts.len(),
{
    if atts.len() == 0 || out.len() >= MAX_COMBAT_ENUM {
        out
    } else {
        let atk = atts[0];
        let c = block_candidates(s, el, cl, atk, el.len() as int);
        let m = min_blockers(s, atk);
        let next = if m > c.len() {
            out
        } else {
            add_blocks(out, block_subsets(c), atk, m)
        };
        blocks_from(s, el, cl, atts.drop_first(), next)
    }
}

/// The ids of `atts`.
pub open spec fn attacker_ids(atts: Seq<AttackerInfo>) -> Seq<ObjectId> {
    atts.map_values(|a: AttackerInfo| a.object_id)
}

/// The block declarations open to `defender`: blocking with nothing
/// first; then, attacker by attacker in id order, each big enough subset
/// of the creatures that can block it (up to interchangeable ones), until
/// there are `MAX_COMBAT_ENUM` declarations.
pub open spec fn block_declarations(s: GameState, defender: PlayerId) -> Seq<Seq<BlockerDeclaration>> {
    let none = seq![Seq::<BlockerDeclaration>::empty()];
    match s.combat {
        None => none,
        Some(c) => {
            let el = able_blockers(s.objects.objs@, defender);
            let ids = attacker_ids(c.attackers@);
            blocks_from(s, el, classed(s, el), lowest_ids(ids, ids.len()), none)
        },
    }
}

/// The blocks an action declares (none for other actions).
pub open spec fn blockers_of(a: Action) -> Seq<BlockerDeclaration> {
    match a {
        Action::DeclareBlockers { blockers } => blockers@,
        _ => Seq::empty(),
    }
}

/// `r` is the block declarations open to `defender`, in order.
pub open spec fn blocks_ok(s: GameState, defender: PlayerId, r: Seq<Action>) -> bool {
    &&& r.len() == block_declarations(s, defender).len()
    &&& forall|i: int|
        0 <= i < r.len() ==> (#[trigger] r[i] is DeclareBlockers) && blockers_of(r[i]) == block_declarations(
            s,
            defender,
        )[i]
}

/// Do `a` and `b` have the same keyword abilities?
fn same_keywords(state: &GameState, a: &GameObject, b: &GameObject) -> (r: bool)
    ensures
        r == forall|k: KeywordAbility|
            #[trigger] spec_has_keyword(*a, state.continuous_effects@, k) == spec_has_keyword(
                *b,
                state.continuous_effects@,
                k,
            ),
{
    let all: [KeywordAbility; 15] = [
        KeywordAbility::Flying,
        KeywordAbility::FirstStrike,
        KeywordAbility::DoubleStrike,
        KeywordAbility::Deathtouch,
        KeywordAbility::Defender,
        KeywordAbility::Flash,
        KeywordAbility::Haste,
        KeywordAbility::Hexproof,
        KeywordAbility::Indestructible,
        KeywordAbility::Lifelink,
        KeywordAbility::Menace,
        KeywordAbility::Reach,
        KeywordAbility::Shroud,
        KeywordAbility::Trample,
        KeywordAbility::Vigilance,
    ];
    proof {
        assert(all@ == all_keywords());
    }
    let mut i: usize = 0;
    while i < 15
        invariant
            i <= 15,
            all@ == all_keywords(),
            forall|j: int|
                0 <= j < i ==> spec_has_keyword(*a, state.continuous_effects@, #[trigger] all_keywords()[j])
                    == spec_has_keyword(*b, state.continuous_effects@, all_keywords()[j]),
        decreases 15 - i,
    {
        if object_has_keyword(a, &state.continuous_effects, all[i]) != object_has_keyword(
            b,
            &state.continuous_effects,
            all[i],
        ) {
            return false;
        }
        i = i + 1;
    }
    proof {
        assert forall|k: KeywordAbility| #[trigger] spec_has_keyword(*a, state.continuous_effects@, k) == spec_has_keyword(
            *b,
            state.continuous_effects@,
            k,
        ) by {
            let j: int = match k {
                KeywordAbility::Flying => 0,
                KeywordAbility::FirstStrike => 1,
                KeywordAbility::DoubleStrike => 2,
                KeywordAbility::Deathtouch => 3,
                KeywordAbility::Defender => 4,
                KeywordAbility::Flash => 5,
                KeywordAbility::Haste => 6,
                KeywordAbility::Hexproof => 7,
                KeywordAbility::Indestructible => 8,
                KeywordAbility::Lifelink => 9,
                KeywordAbility::Menace => 10,
                KeywordAbility::Reach => 11,
                KeywordAbility::Shroud => 12,
                KeywordAbility::Trample => 13,
                KeywordAbility::Vigilance => 14,
            };
            assert(all_keywords()[j] == k);
        }
    }
    true
}

/// Positions of the objects able to block for `defender`, in id order.
fn able_blocker_list(state: &GameState, defender: PlayerId) -> (v: Vec<usize>)
    ensures
        v@.len() == able_blockers(state.objects.objs@, defender).len(),
        forall|t: int|
            0 <= t < v@.len() ==> (#[trigger] v@[t]) < state.objects.objs@.len() && state.objects.objs@[v@[t] as int]
                == able_blockers(state.objects.objs@, defender)[t],
{
    let ghost objs = state.objects.objs@;
    let mut v: Vec<usize> = Vec::new();
    let mut i: usize = 0;
    while i < state.objects.objs.len()
        invariant
            objs == state.objects.objs@,
            i <= objs.len(),
            v@.len() == able_blockers(objs.take(i as int), defender).len(),
            forall|t: int|
                0 <= t < v@.len() ==> (#[trigger] v@[t]) < objs.len() && objs[v@[t] as int] == able_blockers(
                    objs.take(i as int),
                    defender,
                )[t],
        decreases objs.len() - i,
    {
        proof {
            assert(objs.take(i + 1).drop_last() =~= objs.take(i as int));
            assert(objs.take(i + 1).last() == objs[i as int]);
        }
        let o = &state.objects.objs[i];
        if o.zone == Zone::Battlefield && o.controller == defender && o.characteristics.types.is_creature()
            && !o.status.tapped {
            v.push(i);
        }
        i = i + 1;
    }
    proof {
        assert(objs.take(i as int) =~= objs);
    }
    v
}

/// Each blocker at the positions `pos` with its class, as [`classed`]
/// gives it over the objects `el` at those positions.
fn classify(state: &GameState, pos: &Vec<usize>, Ghost(el): Ghost<Seq<GameObject>>) -> (cl: Vec<(ObjectId, u32)>)
    requires
        el.len() <= u32::MAX,
        pos@.len() == el.len(),
        forall|t: int|
            0 <= t < pos@.len() ==> (#[trigger] pos@[t]) < state.objects.objs@.len() && state.objects.objs@[pos@[t] as int]
                == el[t],
    ensures
        cl@ == classed(*state, el),
{
    let mut cl: Vec<(ObjectId, u32)> = Vec::new();
    let mut i: usize = 0;
    while i < pos.len()
        invariant
            el.len() <= u32::MAX,
            pos@.len() == el.len(),
            forall|t: int|
                0 <= t < pos@.len() ==> (#[trigger] pos@[t]) < state.objects.objs@.len()
                    && state.objects.objs@[pos@[t] as int] == el[t],
            i <= el.len(),
            cl@ == classed(*state, el).take(i as int),
        decreases el.len() - i,
    {
        let oi = &state.objects.objs[pos[i]];
        let mut j: usize = 0;
        while j < i
            invariant
                j <= i < el.len(),
                pos@.len() == el.len(),
                forall|t: int|
                    0 <= t < pos@.len() ==> (#[trigger] pos@[t]) < state.objects.objs@.len()
                        && state.objects.objs@[pos@[t] as int] == el[t],
                *oi == el[i as int],
                first_same_from(*state, el, i as int, 0) == first_same_from(*state, el, i as int, j as int),
            ensures
                j <= i,
                first_same_from(*state, el, i as int, 0) == j,
            decreases i - j,
        {
            let oj = &state.objects.objs[pos[j]];
            if oj.card_id == oi.card_id && same_keywords(state, oj, oi) {
                proof {
                    assert(same_profile(*state, el[j as int], el[i as int]));
                }
                break;
            }
            j = j + 1;
        }
        cl.push((oi.id, j as u32));
        proof {
            assert(cl@ =~= classed(*state, el).take(i + 1));
        }
        i = i + 1;
    }
    proof {
        assert(classed(*state, el).take(i as int) =~= classed(*state, el));
    }
    cl
}

/// The class of a candidate blocker.
fn class_of(p: &(ObjectId, u32)) -> (k: u32)
    ensures
        k == p.1,
{
    p.1
}

/// The blocks of an action, by value.
pub open spec fn block_view(r: Seq<Action>) -> Seq<Seq<BlockerDeclaration>> {
    r.map_values(|a: Action| blockers_of(a))
}

/// Every block declaration open to `defender` (CR 509.1), as
/// [`block_declarations`] lists them.
pub fn enumerate_blocker_declarations(state: &GameState, defender: PlayerId) -> (r: Vec<Action>)
    requires
        state.wf(),
        state.objects.objs@.len() <= u32::MAX,
    ensures
        blocks_ok(*state, defender, r@),
{
    let ghost want = block_declarations(*state, defender);
    let mut out: Vec<Action> = Vec::new();
    out.push(Action::DeclareBlockers { blockers: Vec::new() });
    proof {
        assert(block_view(out@) =~= seq![Seq::<BlockerDeclaration>::empty()]);
    }
    let combat = match &state.combat {
        Some(c) => c,
        None => {
            proof {
                assert(want =~= block_view(out@));
            }
            return out;
        },
    };
    let pos = able_blocker_list(state, defender);
    let ghost el = able_blockers(state.objects.objs@, defender);
    proof {
        lemma_able_blockers_len(state.objects.objs@, defender);
    }
    let cl = classify(state, &pos, Ghost(el));
    let mut ids: Vec<ObjectId> = Vec::new();
    let mut q: usize = 0;
    while q < combat.attackers.len()
        invariant
            q <= combat.attackers@.len(),
            ids@ == attacker_ids(combat.attackers@.take(q as int)),
        decreases combat.attackers@.len() - q,
    {
        ids.push(combat.attackers[q].object_id);
        proof {
            assert(ids@ =~= attacker_ids(combat.attackers@.take(q + 1)));
        }
        q = q + 1;
    }
    proof {
        assert(combat.attackers@.take(q as int) =~= combat.attackers@);
    }
    let atts = lowest_id_list(&ids, ids.len());
    proof {
        assert(want == blocks_from(*state, el, cl@, atts@, seq![Seq::<BlockerDeclaration>::empty()]));
        assert(atts@.skip(0) =~= atts@);
    }
    let mut t: usize = 0;
    while t < atts.len()
        invariant
            state.wf(),
            t <= atts@.len(),
            pos@.len() == el.len(),
            forall|u: int|
                0 <= u < pos@.len() ==> (#[trigger] pos@[u]) < state.objects.objs@.len() && state.objects.objs@[pos@[u] as int]
                    == el[u],
            cl@ == classed(*state, el),
            forall|j: int| 0 <= j < out@.len() ==> #[trigger] out@[j] is DeclareBlockers,
            blocks_from(*state, el, cl@, atts@.skip(t as int), block_view(out@)) == want,
        ensures
            t <= atts@.len(),
            forall|j: int| 0 <= j < out@.len() ==> #[trigger] out@[j] is DeclareBlockers,
            blocks_from(*state, el, cl@, atts@.skip(t as int), block_view(out@)) == want,
            t >= atts@.len() || out@.len() >= MAX_COMBAT_ENUM,
        decreases atts@.len() - t,
    {
        if out.len() >= MAX_COMBAT_ENUM {
            break;
        }
        let atk = atts[t];
        let ghost cur = block_view(out@);
        proof {
            assert(atts@.skip(t as int)[0] == atk);
            assert(atts@.skip(t as int).drop_first() =~= atts@.skip(t + 1));
        }
        let atk_flies = state.has_keyword(atk, &KeywordAbility::Flying);
        let mut cands: Vec<(ObjectId, u32)> = Vec::new();
        let mut n: usize = 0;
        while n < pos.len()
            invariant
                n <= pos@.len(),
                pos@.len() == el.len(),
                cl@.len() == el.len(),
                forall|u: int|
                    0 <= u < pos@.len() ==> (#[trigger] pos@[u]) < state.objects.objs@.len()
                        && state.objects.objs@[pos@[u] as int] == el[u],
                atk_flies == id_has_keyword(*state, atk, KeywordAbility::Flying),
                cands@ == block_candidates(*state, el, cl@, atk, n as int),
            decreases pos@.len() - n,
        {
            let b = &state.objects.objs[pos[n]];
            let ok = !(atk_flies && !object_has_keyword(b, &state.continuous_effects, KeywordAbility::Flying)
                && !object_has_keyword(b, &state.continuous_effects, KeywordAbility::Reach));
            if ok {
                cands.push(cl[n]);
            }
            n = n + 1;
        }
        let m: usize = if state.has_keyword(atk, &KeywordAbility::Menace) {
            2
        } else {
            1
        };
        proof {
            assert(m == min_blockers(*state, atk));
            assert(cands@ == block_candidates(*state, el, cl@, atk, el.len() as int));
        }
        if m <= cands.len() {
            let subs = enumerate_equivalence_subsets(
                cands.as_slice(),
                cands.len(),
                MAX_COMBAT_ENUM,
                class_of,
            );
            let ghost sv = seq_views(subs@);
            proof {
                let keys = choose|keys: Seq<u32>|
                    {
                        &&& keys.len() == cands@.len()
                        &&& forall|i: int|
                            0 <= i < keys.len() ==> call_ensures(
                                class_of,
                                (&cands@[i],),
                                #[trigger] keys[i],
                            )
                        &&& seq_views(subs@) == spec_cap(
                            spec_group_subsets(spec_groups(cands@, keys), cands@.len() as nat, 0),
                            MAX_COMBAT_ENUM as nat,
                        )
                    };
                assert(keys =~= class_keys(cands@));
                assert(sv == block_subsets(cands@));
                assert(sv.skip(0) =~= sv);
            }
            let mut u: usize = 0;
            while u < subs.len()
                invariant
                    u <= subs@.len(),
                    sv == seq_views(subs@),
                    forall|j: int| 0 <= j < out@.len() ==> #[trigger] out@[j] is DeclareBlockers,
                    add_blocks(block_view(out@), sv.skip(u as int), atk, m as nat) == add_blocks(cur, sv, atk, m as nat),
                ensures
                    u <= subs@.len(),
                    forall|j: int| 0 <= j < out@.len() ==> #[trigger] out@[j] is DeclareBlockers,
                    add_blocks(block_view(out@), sv.skip(u as int), atk, m as nat) == add_blocks(cur, sv, atk, m as nat),
                    u >= subs@.len() || out@.len() >= MAX_COMBAT_ENUM,
                decreases subs@.len() - u,
            {
                if out.len() >= MAX_COMBAT_ENUM {
                    break;
                }
                proof {
                    assert(sv.skip(u as int)[0] == subs@[u as int]@);
                    assert(sv.skip(u as int).drop_first() =~= sv.skip(u + 1));
                }
                let sub = &subs[u];
                if sub.len() > 0 && sub.len() >= m {
                    let mut decl: Vec<BlockerDeclaration> = Vec::new();
                    let mut w: usize = 0;
                    while w < sub.len()
                        invariant
                            w <= sub@.len(),
                            decl@ == block_decl(sub@.take(w as int), atk),
                        decreases sub@.len() - w,
                    {
                        decl.push(BlockerDeclaration { blocker: sub[w].0, blocking: atk });
                        proof {
                            assert(decl@ =~= block_decl(sub@.take(w + 1), atk));
                        }
                        w = w + 1;
                    }
                    proof {
                        assert(sub@.take(w as int) =~= sub@);
                    }
                    let ghost before = out@;
                    out.push(Action::DeclareBlockers { blockers: decl });
                    proof {
                        assert(block_view(out@) =~= block_view(before).push(block_decl(sub@, atk)));
                    }
                }
                u = u + 1;
            }
            proof {
                if u >= subs@.len() {
                    assert(sv.skip(u as int).len() == 0);
                }
                assert(add_blocks(cur, sv, atk, m as nat) == block_view(out@));
            }
        }
        t = t + 1;
    }
    proof {
        if t >= atts@.len() {
            assert(atts@.skip(t as int).len() == 0);
        }
        assert(blocks_from(*state, el, cl@, atts@.skip(t as int), block_view(out@)) == block_view(out@));
        assert forall|i: int| 0 <= i < out@.len() implies (#[trigger] out@[i] is DeclareBlockers) && blockers_of(out@[i])
            == want[i] by {
            assert(block_view(out@)[i] == blockers_of(out@[i]));
        }
    }
    out
}

// =============================================================================
// Entry point
// =============================================================================

/// `player` has a combat declaration to make: attackers or the order of
/// blockers for the active player, blockers for the other.
pub open spec fn declaration_pending(s: GameState, player: PlayerId) -> bool {
    match s.combat {
        Some(c) => ((c.phase == CombatPhase::DeclareAttackers || c.phase == CombatPhase::OrderBlockers) && player
            == s.active_player) || (c.phase == CombatPhase::DeclareBlockers && player != s.active_player),
        None => false,
    }
}

/// The legal actions of `s`: none once the game is over; the answers to a
/// pending choice; the choices of a special action under way; the combat
/// declaration the priority player has to make; otherwise the priority
/// window.
pub open spec fn legal_actions_ok(s: GameState, reg: CardRegistry, r: Seq<Action>) -> bool {
    if s.result is Some {
        r.len() == 0
    } else if s.pending_choice is Some {
        resolution_ok(s, r)
    } else {
        let player = s.priority.player;
        match s.priority.special_action {
            Some(sp) => special_ok(s, player, sp, r),
            None => if declaration_pending(s, player) {
                match s.combat->0.phase {
                    CombatPhase::DeclareAttackers => attacks_ok(s, player, r),
                    CombatPhase::OrderBlockers => orderings_ok(s, r),
                    _ => blocks_ok(s, player, r),
                }
            } else {
                window_ok(s, reg, player, r)
            },
        }
    }
}

/// Every legal action of the player who has to act, as
/// [`legal_actions_ok`] describes them; the order is fixed (in a priority
/// window: pass, concede, land plays, casts by id, then activations by
/// source id and ability index).
pub fn legal_actions(state: &GameState, registry: &CardRegistry) -> (r: Vec<Action>)
    requires
        state.wf(),
        state.objects.objs@.len() <= u32::MAX,
        state.priority.player < state.players@.len(),
        state.pending_choice matches Some(pc) ==> pc.choosing_player < state.players@.len(),
        state.pending_choice matches Some(pc) ==> (pc.kind matches ChoiceKind::PayOrDecline { cost } ==> !spec_has_x(
            cost.components@,
        )),
    ensures
        legal_actions_ok(*state, *registry, r@),
{
    if state.result.is_some() {
        return Vec::new();
    }
    if state.pending_choice.is_some() {
        return legal_resolution_choice_actions(state);
    }
    let player = state.priority.player;
    match &state.priority.special_action {
        Some(special) => {
            return legal_special_actions(state, player, special);
        },
        None => {},
    }
    match &state.combat {
        Some(c) => {
            if c.phase == CombatPhase::DeclareAttackers && player == state.active_player {
                return enumerate_attacker_declarations(state, player);
            }
            if c.phase == CombatPhase::OrderBlockers && player == state.active_player {
                return enumerate_blocker_orderings(state);
            }
            if c.phase == CombatPhase::DeclareBlockers && player != state.active_player {
                return enumerate_blocker_declarations(state, player);
            }
        },
        None => {},
    }
    legal_priority_actions(state, player, registry)
}

} // verus!
