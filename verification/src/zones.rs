//! Zones (CR 400).

use vstd::prelude::*;
use crate::types::PlayerId;

verus! {

/// A zone. Per-player zones carry the owning player.
#[derive(Clone, Copy, Debug, PartialEq, Eq, Structural, Hash)]
pub enum Zone {
    Library(PlayerId),
    Hand(PlayerId),
    Battlefield,
    Graveyard(PlayerId),
    Stack,
    Exile,
    Command,
}

/// A zone without its owner ("any graveyard").
#[derive(Clone, Copy, Debug, PartialEq, Eq, Structural, Hash)]
pub enum ZoneKind {
    Library,
    Hand,
    Battlefield,
    Graveyard,
    Stack,
    Exile,
    Command,
}

pub open spec fn spec_zone_kind(z: Zone) -> ZoneKind {
    match z {
        Zone::Library(_) => ZoneKind::Library,
        Zone::Hand(_) => ZoneKind::Hand,
        Zone::Battlefield => ZoneKind::Battlefield,
        Zone::Graveyard(_) => ZoneKind::Graveyard,
        Zone::Stack => ZoneKind::Stack,
        Zone::Exile => ZoneKind::Exile,
        Zone::Command => ZoneKind::Command,
    }
}

impl Zone {
    pub fn kind(self) -> (k: ZoneKind)
        ensures
            k == spec_zone_kind(self),
    {
        match self {
            Zone::Library(_) => ZoneKind::Library,
            Zone::Hand(_) => ZoneKind::Hand,
            Zone::Battlefield => ZoneKind::Battlefield,
            Zone::Graveyard(_) => ZoneKind::Graveyard,
            Zone::Stack => ZoneKind::Stack,
            Zone::Exile => ZoneKind::Exile,
            Zone::Command => ZoneKind::Command,
        }
    }

    pub fn is_battlefield(self) -> (b: bool)
        ensures
            b == (self == Zone::Battlefield),
    {
        match self {
            Zone::Battlefield => true,
            _ => false,
        }
    }
}

} // verus!
