//! Continuous effects and the characteristics they produce (CR 613):
//! power/toughness modifications (layer 7c) and granted keywords
//! (layer 6) on top of an object's own characteristics and counters.

use vstd::prelude::*;
use crate::objects::{GameObject, ObjectId, spec_raw_power, spec_raw_toughness};
use crate::types::{KeywordAbility, PlayerId};

verus! {

/// Layers of CR 613.1.
#[derive(Clone, Copy, Debug, PartialEq, Eq, Structural, Hash)]
pub enum Layer {
    L1Copy,
    L2Control,
    L3Text,
    L4Type,
    L5Color,
    L6AbilityAddingRemoving,
    L7aCharacteristicDefining,
    L7bPTSetting,
    L7cPTModifying,
    L7dPTCounters,
    L7eSwitch,
}

/// How long a continuous effect lasts.
#[derive(Clone, Copy, Debug, PartialEq, Eq, Structural, Hash)]
pub enum Duration {
    Permanent,
    EndOfTurn,
    WhileSourceOnBattlefield,
}

/// What a continuous effect does.
#[derive(Clone, Copy, Debug, PartialEq, Eq, Structural, Hash)]
pub enum ContinuousEffectKind {
    /// `target` gets +power/+toughness (negative values shrink it).
    PumpTarget { target: ObjectId, power: i32, toughness: i32 },
    /// `target` gains `keyword`.
    GrantKeywordTarget { target: ObjectId, keyword: KeywordAbility },
    /// `target` attacks each combat if able (CR 508.1d).
    MustAttack { target: ObjectId },
    /// `target` can't attack.
    CantAttack { target: ObjectId },
    /// `target` is goaded by `goader` (CR 701.15b): it attacks each combat
    /// if able, and never `goader`.
    Goaded { target: ObjectId, goader: PlayerId },
}

/// A continuous effect in force.
#[derive(Clone, Copy, Debug, PartialEq, Eq, Structural, Hash)]
pub struct ContinuousEffect {
    pub source: ObjectId,
    pub layer: Layer,
    pub timestamp: u64,
    pub duration: Duration,
    /// Timestamp of an effect this one depends on (CR 613.8).
    pub dependency: Option<u64>,
    pub kind: ContinuousEffectKind,
}

impl ContinuousEffect {
    /// An attack requirement or restriction on `target` from `source`,
    /// with timestamp 0 until the game stamps it.
    pub open spec fn spec_combat_rule(source: ObjectId, duration: Duration, kind: ContinuousEffectKind) -> ContinuousEffect {
        ContinuousEffect {
            source,
            layer: Layer::L6AbilityAddingRemoving,
            timestamp: 0,
            duration,
            dependency: None,
            kind,
        }
    }

    /// "`target` attacks each combat if able."
    pub fn must_attack(source: ObjectId, target: ObjectId, duration: Duration) -> (e: ContinuousEffect)
        ensures
            e == Self::spec_combat_rule(source, duration, ContinuousEffectKind::MustAttack { target }),
    {
        ContinuousEffect {
            source,
            layer: Layer::L6AbilityAddingRemoving,
            timestamp: 0,
            duration,
            dependency: None,
            kind: ContinuousEffectKind::MustAttack { target },
        }
    }

    /// "`target` can't attack."
    pub fn cant_attack(source: ObjectId, target: ObjectId, duration: Duration) -> (e: ContinuousEffect)
        ensures
            e == Self::spec_combat_rule(source, duration, ContinuousEffectKind::CantAttack { target }),
    {
        ContinuousEffect {
            source,
            layer: Layer::L6AbilityAddingRemoving,
            timestamp: 0,
            duration,
            dependency: None,
            kind: ContinuousEffectKind::CantAttack { target },
        }
    }

    /// `goader` goads `target`.
    pub fn goad(source: ObjectId, target: ObjectId, goader: PlayerId, duration: Duration) -> (e: ContinuousEffect)
        ensures
            e == Self::spec_combat_rule(source, duration, ContinuousEffectKind::Goaded { target, goader }),
    {
        ContinuousEffect {
            source,
            layer: Layer::L6AbilityAddingRemoving,
            timestamp: 0,
            duration,
            dependency: None,
            kind: ContinuousEffectKind::Goaded { target, goader },
        }
    }
}

/// Total power change that `effects` give object `id`.
pub open spec fn pump_power(effects: Seq<ContinuousEffect>, id: ObjectId) -> int
    decreases effects.len(),
{
    if effects.len() == 0 {
        0
    } else {
        pump_power(effects.drop_last(), id) + match effects.last().kind {
            ContinuousEffectKind::PumpTarget { target, power, toughness } => if target == id {
                power as int
            } else {
                0
            },
            _ => 0,
        }
    }
}

/// Total toughness change that `effects` give object `id`.
pub open spec fn pump_toughness(effects: Seq<ContinuousEffect>, id: ObjectId) -> int
    decreases effects.len(),
{
    if effects.len() == 0 {
        0
    } else {
        pump_toughness(effects.drop_last(), id) + match effects.last().kind {
            ContinuousEffectKind::PumpTarget { target, power, toughness } => if target == id {
                toughness as int
            } else {
                0
            },
            _ => 0,
        }
    }
}

/// `x` limited to the range of `i32`.
pub open spec fn clamp_i32(x: int) -> i32 {
    if x < i32::MIN {
        i32::MIN
    } else if x > i32::MAX {
        i32::MAX
    } else {
        x as i32
    }
}

/// Power of `o` under `effects`: printed power, P/T counters and pumps.
pub open spec fn spec_power_of(o: GameObject, effects: Seq<ContinuousEffect>) -> Option<int> {
    match spec_raw_power(o, None) {
        Some(v) => Some(v + pump_power(effects, o.id)),
        None => None,
    }
}

/// Toughness of `o` under `effects`: printed toughness, P/T counters and
/// pumps.
pub open spec fn spec_toughness_of(o: GameObject, effects: Seq<ContinuousEffect>) -> Option<int> {
    match spec_raw_toughness(o, None) {
        Some(v) => Some(v + pump_toughness(effects, o.id)),
        None => None,
    }
}

/// `v` clamped into `i32`, when present.
pub open spec fn clamp_opt(v: Option<int>) -> Option<i32> {
    match v {
        Some(x) => Some(clamp_i32(x)),
        None => None,
    }
}

/// Does `o` have keyword `k`, printed or granted by `effects`?
pub open spec fn spec_has_keyword(o: GameObject, effects: Seq<ContinuousEffect>, k: KeywordAbility) -> bool {
    ||| o.characteristics.keywords@.contains(k)
    ||| exists|i: int|
        0 <= i < effects.len() && #[trigger] effects[i].kind == (ContinuousEffectKind::GrantKeywordTarget {
            target: o.id,
            keyword: k,
        })
}

/// Sum of the pumps, in a width where no sum of `i32`s from a `Vec`
/// overflows.
fn pump_sums(effects: &Vec<ContinuousEffect>, id: ObjectId) -> (r: (i128, i128))
    ensures
        r.0 == pump_power(effects@, id),
        r.1 == pump_toughness(effects@, id),
        -0x1_0000_0000_0000_0000_0000_0000int <= r.0 <= 0x1_0000_0000_0000_0000_0000_0000int,
        -0x1_0000_0000_0000_0000_0000_0000int <= r.1 <= 0x1_0000_0000_0000_0000_0000_0000int,
{
    let mut p: i128 = 0;
    let mut t: i128 = 0;
    let mut i: usize = 0;
    while i < effects.len()
        invariant
            i <= effects@.len(),
            p == pump_power(effects@.take(i as int), id),
            t == pump_toughness(effects@.take(i as int), id),
            -(i as int) * 2147483648 <= p <= (i as int) * 2147483648,
            -(i as int) * 2147483648 <= t <= (i as int) * 2147483648,
        decreases effects@.len() - i,
    {
        proof {
            assert(effects@.take(i + 1).drop_last() =~= effects@.take(i as int));
            assert(effects@.take(i + 1).last() == effects@[i as int]);
            assert((i as int) < 0x1_0000_0000_0000_0000int);
        }
        match effects[i].kind {
            ContinuousEffectKind::PumpTarget { target, power, toughness } => {
                if target == id {
                    p = p + power as i128;
                    t = t + toughness as i128;
                }
            },
            _ => {},
        }
        i = i + 1;
    }
    proof {
        assert(effects@.take(i as int) =~= effects@);
        assert((i as int) * 2147483648 <= 0x1_0000_0000_0000_0000_0000_0000int) by (nonlinear_arith)
            requires
                i < 0x1_0000_0000_0000_0000int,
        ;
    }
    (p, t)
}

fn clamp_to_i32(x: i128) -> (r: i32)
    ensures
        r == clamp_i32(x as int),
{
    if x < i32::MIN as i128 {
        i32::MIN
    } else if x > i32::MAX as i128 {
        i32::MAX
    } else {
        x as i32
    }
}

/// Power of `o` under `effects`, clamped into `i32`; `None` for an object
/// without (resolvable) power.
pub fn power_of(o: &GameObject, effects: &Vec<ContinuousEffect>) -> (r: Option<i32>)
    ensures
        r == clamp_opt(spec_power_of(*o, effects@)),
{
    match o.characteristics.power {
        Some(pv) => match pv.resolve(None) {
            Some(base) => {
                let plus = o.counters.get(crate::types::CounterKind::PlusOnePlusOne) as i128;
                let minus = o.counters.get(crate::types::CounterKind::MinusOneMinusOne) as i128;
                let (p, _t) = pump_sums(effects, o.id);
                Some(clamp_to_i32(base as i128 + plus - minus + p))
            },
            None => None,
        },
        None => None,
    }
}

/// Toughness of `o` under `effects`, clamped into `i32`; `None` for an
/// object without (resolvable) toughness.
pub fn toughness_of(o: &GameObject, effects: &Vec<ContinuousEffect>) -> (r: Option<i32>)
    ensures
        r == clamp_opt(spec_toughness_of(*o, effects@)),
{
    match o.characteristics.toughness {
        Some(tv) => match tv.resolve(None) {
            Some(base) => {
                let plus = o.counters.get(crate::types::CounterKind::PlusOnePlusOne) as i128;
                let minus = o.counters.get(crate::types::CounterKind::MinusOneMinusOne) as i128;
                let (_p, t) = pump_sums(effects, o.id);
                Some(clamp_to_i32(base as i128 + plus - minus + t))
            },
            None => None,
        },
        None => None,
    }
}

/// Does `o` have keyword `k`, printed or granted?
pub fn object_has_keyword(o: &GameObject, effects: &Vec<ContinuousEffect>, k: KeywordAbility) -> (b: bool)
    ensures
        b == spec_has_keyword(*o, effects@, k),
{
    if o.characteristics.has_keyword(k) {
        return true;
    }
    let mut i: usize = 0;
    while i < effects.len()
        invariant
            i <= effects@.len(),
            forall|j: int| 0 <= j < i ==> effects@[j].kind != (ContinuousEffectKind::GrantKeywordTarget {
                target: o.id,
                keyword: k,
            }),
        decreases effects@.len() - i,
    {
        match effects[i].kind {
            ContinuousEffectKind::GrantKeywordTarget { target, keyword } => {
                if target == o.id && keyword == k {
                    return true;
                }
            },
            _ => {},
        }
        i = i + 1;
    }
    false
}

} // verus!
