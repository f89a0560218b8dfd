//! Object filters ("creatures you control", "nonblack creature with mana
//! value 2 or less") and target descriptions.

use vstd::prelude::*;
use crate::layers::{ContinuousEffect, clamp_opt, power_of, spec_power_of, spec_toughness_of, toughness_of};
use crate::mana::{ManaCost, spec_contribution, spec_mana_value, spec_value_with_x};
use crate::objects::{GameObject, ObjectId, spec_cost_value};
use crate::state::GameState;
use crate::types::{ColorSet, CommodityToken, CounterKind, PlayerId, SmallString, TypeLine};

verus! {

/// Whose objects a filter accepts, relative to "you".
#[derive(Clone, Copy, Debug, PartialEq, Eq, Structural, Hash)]
pub enum ControllerConstraint {
    Any,
    You,
    Opponent,
}

pub open spec fn spec_controller_ok(c: ControllerConstraint, p: PlayerId, you: PlayerId) -> bool {
    match c {
        ControllerConstraint::Any => true,
        ControllerConstraint::You => p == you,
        ControllerConstraint::Opponent => p != you,
    }
}

impl ControllerConstraint {
    /// Does a player `p` satisfy the constraint, where `you` is "you"?
    pub fn matches(&self, p: PlayerId, you: PlayerId) -> (b: bool)
        ensures
            b == spec_controller_ok(*self, p, you),
    {
        match self {
            ControllerConstraint::Any => true,
            ControllerConstraint::You => p == you,
            ControllerConstraint::Opponent => p != you,
        }
    }
}

/// A comparison against a number.
#[derive(Clone, Copy, Debug, PartialEq, Eq, Structural, Hash)]
pub enum NumCondition {
    AtMost(i64),
    AtLeast(i64),
    Exactly(i64),
}

pub open spec fn spec_num_holds(c: NumCondition, v: int) -> bool {
    match c {
        NumCondition::AtMost(n) => v <= n,
        NumCondition::AtLeast(n) => v >= n,
        NumCondition::Exactly(n) => v == n,
    }
}

impl NumCondition {
    pub fn holds(&self, v: i128) -> (b: bool)
        ensures
            b == spec_num_holds(*self, v as int),
    {
        match self {
            NumCondition::AtMost(n) => v <= *n as i128,
            NumCondition::AtLeast(n) => v >= *n as i128,
            NumCondition::Exactly(n) => v == *n as i128,
        }
    }
}

/// A conjunction of optional constraints on an object. Every `None`
/// accepts anything.
#[derive(Clone, Copy, Debug, PartialEq, Eq, Structural)]
pub struct ObjectFilter {
    /// Has at least one of these card types.
    pub types: Option<TypeLine>,
    /// Has none of these card types.
    pub not_types: Option<TypeLine>,
    /// Has at least one of these colors.
    pub colors: Option<ColorSet>,
    /// Has none of these colors.
    pub not_colors: Option<ColorSet>,
    /// Has this subtype.
    pub subtypes: Option<SmallString>,
    pub controller: Option<ControllerConstraint>,
    /// On the mana value.
    pub cmc_condition: Option<NumCondition>,
    /// On the current power (a non-creature fails).
    pub power_condition: Option<NumCondition>,
    /// On the current toughness (a non-creature fails).
    pub toughness_condition: Option<NumCondition>,
    pub name: Option<SmallString>,
    pub is_token: Option<bool>,
    /// Has at least one counter of this kind.
    pub has_counter: Option<CounterKind>,
    pub tapped: Option<bool>,
    /// Is this kind of predefined token.
    pub commodity: Option<CommodityToken>,
    /// Accepts no object at all.
    pub matches_nothing: bool,
}

/// `o`'s subtypes include `s`.
pub open spec fn has_subtype(o: GameObject, s: SmallString) -> bool {
    o.characteristics.subtypes.0@.contains(s)
}

impl ObjectFilter {
    /// Does `o` pass the filter, under continuous effects `effects`, where
    /// `you` is "you"?
    pub open spec fn spec_matches(self, o: GameObject, effects: Seq<ContinuousEffect>, you: PlayerId) -> bool {
        &&& !self.matches_nothing
        &&& (self.types matches Some(t) ==> o.characteristics.types.0 & t.0 != 0)
        &&& (self.not_types matches Some(t) ==> o.characteristics.types.0 & t.0 == 0)
        &&& (self.colors matches Some(c) ==> o.characteristics.colors.0 & c.0 != 0)
        &&& (self.not_colors matches Some(c) ==> o.characteristics.colors.0 & c.0 == 0)
        &&& (self.subtypes matches Some(s) ==> has_subtype(o, s))
        &&& (self.controller matches Some(c) ==> spec_controller_ok(c, o.controller, you))
        &&& (self.cmc_condition matches Some(c) ==> spec_num_holds(c, spec_cost_value(o.characteristics.mana_cost) as int))
        &&& (self.power_condition matches Some(c) ==> (clamp_opt(spec_power_of(o, effects)) matches Some(p)
            && spec_num_holds(c, p as int)))
        &&& (self.toughness_condition matches Some(c) ==> (clamp_opt(spec_toughness_of(o, effects)) matches Some(t)
            && spec_num_holds(c, t as int)))
        &&& (self.name matches Some(n) ==> o.characteristics.name == n)
        &&& (self.is_token matches Some(b) ==> o.is_token == b)
        &&& (self.has_counter matches Some(k) ==> o.counters.count(k) > 0)
        &&& (self.tapped matches Some(b) ==> o.status.tapped == b)
        &&& (self.commodity matches Some(k) ==> o.commodity == Some(k))
    }

    pub open spec fn spec_any() -> ObjectFilter {
        ObjectFilter {
            types: None,
            not_types: None,
            colors: None,
            not_colors: None,
            subtypes: None,
            controller: None,
            cmc_condition: None,
            power_condition: None,
            toughness_condition: None,
            name: None,
            is_token: None,
            has_counter: None,
            tapped: None,
            commodity: None,
            matches_nothing: false,
        }
    }

    /// The filter that accepts every object.
    pub fn new() -> (f: ObjectFilter)
        ensures
            f == ObjectFilter::spec_any(),
    {
        ObjectFilter {
            types: None,
            not_types: None,
            colors: None,
            not_colors: None,
            subtypes: None,
            controller: None,
            cmc_condition: None,
            power_condition: None,
            toughness_condition: None,
            name: None,
            is_token: None,
            has_counter: None,
            tapped: None,
            commodity: None,
            matches_nothing: false,
        }
    }

    /// Creatures.
    pub fn creature() -> (f: ObjectFilter)
        ensures
            f == (ObjectFilter { types: Some(TypeLine(TypeLine::CREATURE)), ..ObjectFilter::spec_any() }),
    {
        ObjectFilter { types: Some(TypeLine(TypeLine::CREATURE)), ..ObjectFilter::new() }
    }

    /// Permanents (objects with a permanent card type).
    pub fn permanent() -> (f: ObjectFilter)
        ensures
            f == (ObjectFilter { types: Some(TypeLine(TypeLine::PERMANENT_TYPES)), ..ObjectFilter::spec_any() }),
    {
        ObjectFilter { types: Some(TypeLine(TypeLine::PERMANENT_TYPES)), ..ObjectFilter::new() }
    }

    /// Objects with at least one of the card types `t`.
    pub fn with_types_any(self, t: TypeLine) -> (f: ObjectFilter)
        ensures
            f == (ObjectFilter { types: Some(t), ..self }),
    {
        ObjectFilter { types: Some(t), ..self }
    }

    /// Objects with at least one of the colors `c`.
    pub fn with_colors(self, c: ColorSet) -> (f: ObjectFilter)
        ensures
            f == (ObjectFilter { colors: Some(c), ..self }),
    {
        ObjectFilter { colors: Some(c), ..self }
    }

    /// Objects with none of the colors `c`.
    pub fn without_colors(self, c: ColorSet) -> (f: ObjectFilter)
        ensures
            f == (ObjectFilter { not_colors: Some(c), ..self }),
    {
        ObjectFilter { not_colors: Some(c), ..self }
    }

    /// Objects with the subtype interned as `s`.
    pub fn with_subtype_sym(self, s: SmallString) -> (f: ObjectFilter)
        ensures
            f == (ObjectFilter { subtypes: Some(s), ..self }),
    {
        ObjectFilter { subtypes: Some(s), ..self }
    }

    pub fn controlled_by(self, c: ControllerConstraint) -> (f: ObjectFilter)
        ensures
            f == (ObjectFilter { controller: Some(c), ..self }),
    {
        ObjectFilter { controller: Some(c), ..self }
    }

    /// Mana value at most `n`.
    pub fn with_max_cmc(self, n: u32) -> (f: ObjectFilter)
        ensures
            f == (ObjectFilter { cmc_condition: Some(NumCondition::AtMost(n as i64)), ..self }),
    {
        ObjectFilter { cmc_condition: Some(NumCondition::AtMost(n as i64)), ..self }
    }

    /// Power at least `n`.
    pub fn with_min_power(self, n: i32) -> (f: ObjectFilter)
        ensures
            f == (ObjectFilter { power_condition: Some(NumCondition::AtLeast(n as i64)), ..self }),
    {
        ObjectFilter { power_condition: Some(NumCondition::AtLeast(n as i64)), ..self }
    }

    pub fn tapped_only(self) -> (f: ObjectFilter)
        ensures
            f == (ObjectFilter { tapped: Some(true), ..self }),
    {
        ObjectFilter { tapped: Some(true), ..self }
    }

    pub fn untapped_only(self) -> (f: ObjectFilter)
        ensures
            f == (ObjectFilter { tapped: Some(false), ..self }),
    {
        ObjectFilter { tapped: Some(false), ..self }
    }

    /// Predefined tokens of kind `k`.
    pub fn commodity_kind(self, k: CommodityToken) -> (f: ObjectFilter)
        ensures
            f == (ObjectFilter { commodity: Some(k), ..self }),
    {
        ObjectFilter { commodity: Some(k), ..self }
    }

    /// The filter that accepts no object.
    pub fn nothing() -> (f: ObjectFilter)
        ensures
            f == (ObjectFilter { matches_nothing: true, ..ObjectFilter::spec_any() }),
    {
        ObjectFilter { matches_nothing: true, ..ObjectFilter::new() }
    }

    /// Does `o` pass the filter in `state`, with `you` as "you"?
    pub fn matches(&self, o: &GameObject, state: &GameState, you: PlayerId) -> (b: bool)
        ensures
            b == self.spec_matches(*o, state.continuous_effects@, you),
    {
        self.matches_under(o, &state.continuous_effects, you)
    }

    /// [`Self::matches`] with the continuous effects given directly.
    pub fn matches_under(&self, o: &GameObject, effects: &Vec<ContinuousEffect>, you: PlayerId) -> (b: bool)
        ensures
            b == self.spec_matches(*o, effects@, you),
    {
        if self.matches_nothing {
            return false;
        }
        let ch = &o.characteristics;
        if let Some(t) = self.types {
            if ch.types.0 & t.0 == 0 {
                return false;
            }
        }
        if let Some(t) = self.not_types {
            if ch.types.0 & t.0 != 0 {
                return false;
            }
        }
        if let Some(c) = self.colors {
            if ch.colors.0 & c.0 == 0 {
                return false;
            }
        }
        if let Some(c) = self.not_colors {
            if ch.colors.0 & c.0 != 0 {
                return false;
            }
        }
        if let Some(s) = self.subtypes {
            if !ch.subtypes.contains(s) {
                return false;
            }
        }
        if let Some(c) = self.controller {
            if !c.matches(o.controller, you) {
                return false;
            }
        }
        if let Some(c) = self.cmc_condition {
            let v = cost_value_wide(&ch.mana_cost);
            if !c.holds(v as i128) {
                return false;
            }
        }
        if let Some(c) = self.power_condition {
            match power_of(o, effects) {
                Some(p) => {
                    if !c.holds(p as i128) {
                        return false;
                    }
                },
                None => {
                    return false;
                },
            }
        }
        if let Some(c) = self.toughness_condition {
            match toughness_of(o, effects) {
                Some(t) => {
                    if !c.holds(t as i128) {
                        return false;
                    }
                },
                None => {
                    return false;
                },
            }
        }
        if let Some(n) = self.name {
            if ch.name != n {
                return false;
            }
        }
        if let Some(b) = self.is_token {
            if o.is_token != b {
                return false;
            }
        }
        if let Some(k) = self.has_counter {
            if o.counters.get(k) == 0 {
                return false;
            }
        }
        if let Some(b) = self.tapped {
            if o.status.tapped != b {
                return false;
            }
        }
        if let Some(k) = self.commodity {
            match o.commodity {
                Some(k2) => {
                    if k2 != k {
                        return false;
                    }
                },
                None => {
                    return false;
                },
            }
        }
        true
    }
}

impl Default for ObjectFilter {
    fn default() -> (f: ObjectFilter)
        ensures
            f == ObjectFilter::spec_any(),
    {
        ObjectFilter::new()
    }
}

/// Mana value of an optional cost, in a width that cannot overflow.
pub fn cost_value_wide(c: &Option<ManaCost>) -> (r: u128)
    ensures
        r == spec_cost_value(*c),
        r <= 0x1_0000_0000_0000_0000_0000_0000,
{
    match c {
        None => 0,
        Some(m) => {
            let mut total: u128 = 0;
            let mut i: usize = 0;
            while i < m.components.len()
                invariant
                    i <= m.components@.len(),
                    total == spec_value_with_x(m.components@.take(i as int), 0),
                    total <= (i as int) * 0x1_0000_0000,
                decreases m.components@.len() - i,
            {
                proof {
                    assert(m.components@.take(i + 1).drop_last() =~= m.components@.take(i as int));
                    assert(m.components@.take(i + 1).last() == m.components@[i as int]);
                    assert((i as int) < 0x1_0000_0000_0000_0000int);
                }
                let v = m.components[i].mana_value_contribution();
                total = total + v as u128;
                i = i + 1;
            }
            proof {
                assert(m.components@.take(i as int) =~= m.components@);
                assert((i as int) * 0x1_0000_0000 <= 0x1_0000_0000_0000_0000_0000_0000int) by (nonlinear_arith)
                    requires
                        i < 0x1_0000_0000_0000_0000int,
                ;
            }
            total
        },
    }
}

/// A chosen target.
#[derive(Clone, Copy, Debug, PartialEq, Eq, Structural, Hash)]
pub enum TargetChoice {
    Object(ObjectId),
    Player(PlayerId),
}

/// What a target may be.
#[derive(Clone, Copy, Debug, PartialEq, Eq, Structural)]
pub enum TargetFilter {
    /// Any object or player ("any target").
    Any,
    /// A player.
    Player,
    /// A creature or a player.
    CreatureOrPlayer,
    /// An object passing the filter.
    Object(ObjectFilter),
}

impl TargetFilter {
    /// Does the choice fit, in `state`, with `you` as "you"? An object
    /// must still exist; a player need only be named.
    pub open spec fn spec_matches(self, choice: TargetChoice, objects: Map<ObjectId, GameObject>, effects: Seq<ContinuousEffect>, you: PlayerId) -> bool {
        match (self, choice) {
            (TargetFilter::Any, TargetChoice::Player(_)) => true,
            (TargetFilter::Any, TargetChoice::Object(id)) => objects.contains_key(id),
            (TargetFilter::Player, TargetChoice::Player(_)) => true,
            (TargetFilter::Player, TargetChoice::Object(_)) => false,
            (TargetFilter::CreatureOrPlayer, TargetChoice::Player(_)) => true,
            (TargetFilter::CreatureOrPlayer, TargetChoice::Object(id)) => objects.contains_key(id)
                && objects[id].characteristics.types.has_bits(TypeLine::CREATURE),
            (TargetFilter::Object(_), TargetChoice::Player(_)) => false,
            (TargetFilter::Object(f), TargetChoice::Object(id)) => objects.contains_key(id) && f.spec_matches(
                objects[id],
                effects,
                you,
            ),
        }
    }

    pub fn matches(&self, choice: &TargetChoice, state: &GameState, you: PlayerId) -> (b: bool)
        requires
            state.objects.wf(),
        ensures
            b == self.spec_matches(*choice, state.objects@, state.continuous_effects@, you),
    {
        match (self, choice) {
            (TargetFilter::Any, TargetChoice::Player(_)) => true,
            (TargetFilter::Any, TargetChoice::Object(id)) => state.objects.contains(*id),
            (TargetFilter::Player, TargetChoice::Player(_)) => true,
            (TargetFilter::Player, TargetChoice::Object(_)) => false,
            (TargetFilter::CreatureOrPlayer, TargetChoice::Player(_)) => true,
            (TargetFilter::CreatureOrPlayer, TargetChoice::Object(id)) => match state.objects.get(*id) {
                Some(o) => o.is_creature(),
                None => false,
            },
            (TargetFilter::Object(_), TargetChoice::Player(_)) => false,
            (TargetFilter::Object(f), TargetChoice::Object(id)) => match state.objects.get(*id) {
                Some(o) => f.matches(o, state, you),
                None => false,
            },
        }
    }
}

/// One target slot of a spell or ability.
#[derive(Clone, Copy, Debug, PartialEq, Eq, Structural)]
pub struct TargetRequirement {
    pub filter: TargetFilter,
    pub min_targets: u32,
    pub max_targets: u32,
}

impl TargetRequirement {
    /// Exactly one "any target" (a creature, player, planeswalker, ...).
    pub fn any_target() -> (r: TargetRequirement)
        ensures
            r == (TargetRequirement { filter: TargetFilter::Any, min_targets: 1, max_targets: 1 }),
    {
        TargetRequirement { filter: TargetFilter::Any, min_targets: 1, max_targets: 1 }
    }
}

/// The targets chosen for a spell or ability, in slot order.
#[derive(Clone, Debug, Default)]
pub struct TargetSelection {
    pub targets: Vec<TargetChoice>,
}

impl TargetSelection {
    pub fn new() -> (s: TargetSelection)
        ensures
            s.targets@.len() == 0,
    {
        TargetSelection { targets: Vec::new() }
    }
}

} // verus!
