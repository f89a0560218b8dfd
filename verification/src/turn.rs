//! Steps of a turn (CR 500).

use vstd::prelude::*;

verus! {

/// A step (or a main phase) of the turn.
#[derive(Clone, Copy, Debug, PartialEq, Eq, Structural, Hash)]
pub enum Step {
    Untap,
    Upkeep,
    Draw,
    Main,
    BeginCombat,
    DeclareAttackers,
    DeclareBlockers,
    /// First-strike combat damage step.
    CombatDamage,
    /// Regular combat damage step.
    CombatDamageRegular,
    EndCombat,
    End,
    Cleanup,
}

} // verus!
