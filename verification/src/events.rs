//! Game events: what happened, in the order it happened.

use vstd::prelude::*;
use crate::objects::ObjectId;
use crate::types::{CounterKind, PlayerId};
use crate::zones::Zone;

verus! {

/// Something damage can be dealt to.
#[derive(Clone, Copy, Debug, PartialEq, Eq, Structural, Hash)]
pub enum DamageTarget {
    Object(ObjectId),
    Player(PlayerId),
}

/// Why a player lost (CR 704.5a-c).
#[derive(Clone, Copy, Debug, PartialEq, Eq, Structural, Hash)]
pub enum LoseReason {
    LifeZero,
    Decked,
    PoisonCounters,
    Conceded,
}

/// What moved an object between zones.
#[derive(Clone, Copy, Debug, PartialEq, Eq, Structural, Hash)]
pub enum MoveCause {
    StateBasedAction,
    SpellResolution,
    Effect,
    Destroy,
    Sacrifice,
    Discard,
    Draw,
    Cast,
    Cleanup,
}

/// An entry of the game's event log.
#[derive(Clone, Copy, Debug, PartialEq, Eq, Structural)]
pub enum GameEvent {
    TurnBegins { player: PlayerId },
    PlayerLoses { player: PlayerId, reason: LoseReason },
    PlayerWins { player: PlayerId },
    /// A creature or planeswalker went from the battlefield to a
    /// graveyard (`object_id` is its id on the battlefield).
    Dies { object_id: ObjectId },
    ZoneChanged { object_id: ObjectId, new_id: ObjectId, from: Zone, to: Zone, cause: MoveCause },
    EntersBattlefield { object_id: ObjectId, controller: PlayerId },
    CounterAdded { object_id: ObjectId, kind: CounterKind, count: u32 },
    CounterRemoved { object_id: ObjectId, kind: CounterKind, count: u32 },
    Detached { equipment_or_aura: ObjectId, from: ObjectId },
    DamageDealt { source: ObjectId, target: DamageTarget, amount: u32, is_combat: bool },
    LifeLost { player: PlayerId, amount: u32 },
    LifeGained { player: PlayerId, amount: u32 },
    DrawCard { player: PlayerId, object_id: ObjectId },
    Discarded { player: PlayerId, object_id: ObjectId },
    SpellCast { object_id: ObjectId, controller: PlayerId },
    CreatureAttacks { attacker: ObjectId, defender: PlayerId },
    Tapped { object_id: ObjectId },
    /// A card went from `player`'s library to their graveyard.
    Milled { player: PlayerId, object_id: ObjectId },
    /// `player` sacrificed a permanent.
    Sacrifice { player: PlayerId, object_id: ObjectId },
    /// An object was exiled.
    Exiled { object_id: ObjectId },
    /// `controller` created a token.
    TokenCreated { object_id: ObjectId, controller: PlayerId },
    /// `player` rolled a die with `sides` sides and got `result`.
    DieRolled { player: PlayerId, sides: u32, result: u32 },
}

} // verus!
