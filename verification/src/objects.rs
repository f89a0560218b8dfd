//! Game objects: `ObjectId`, `ObjectArena`, `GameObject`, `Characteristics`.
//!
//! Every in-game entity (cards, tokens, copies on the stack) is a
//! [`GameObject`] living in an [`ObjectArena`] and keyed by an
//! [`ObjectId`]. The arena keeps its objects sorted by id, so iteration is
//! deterministic (ascending id).

use vstd::prelude::*;
use crate::mana::{ManaCost, spec_mana_value};
use crate::types::{
    AbilityId, CardId, ColorSet, CommodityToken, CounterKind, CounterMap, KeywordAbility, PlayerId,
    PtValue, SmallString, SubtypeSet, SupertypeSet, TypeLine,
};
use crate::zones::{Zone, ZoneKind, spec_zone_kind};

verus! {

/// Identifier of a game object. Real ids start at 1.
pub type ObjectId = u32;

/// Sentinel for "no object"; never assigned by the engine.
pub const NULL_OBJECT_ID: ObjectId = 0;

// =============================================================================
// Characteristics
// =============================================================================

/// Characteristics of an object (name, cost, color, types, P/T, ...).
#[derive(Clone, Debug)]
pub struct Characteristics {
    pub name: SmallString,
    pub mana_cost: Option<ManaCost>,
    pub colors: ColorSet,
    pub types: TypeLine,
    pub subtypes: SubtypeSet,
    pub supertypes: SupertypeSet,
    /// `None` for non-creatures.
    pub power: Option<PtValue>,
    /// `None` for non-creatures.
    pub toughness: Option<PtValue>,
    /// Printed starting loyalty of a planeswalker.
    pub loyalty: Option<i32>,
    pub abilities_text: Vec<AbilityId>,
    /// Keyword abilities the object has.
    pub keywords: Vec<KeywordAbility>,
    /// Has the Aura subtype (CR 303.4).
    pub is_aura: bool,
    /// Has the Fortification subtype (CR 301.6).
    pub is_fortification: bool,
}

/// Two optional mana costs with the same components.
pub open spec fn same_cost(a: Option<ManaCost>, b: Option<ManaCost>) -> bool {
    match (a, b) {
        (None, None) => true,
        (Some(x), Some(y)) => x.components@ == y.components@,
        _ => false,
    }
}

/// Mana value of an optional cost (0 when there is none).
pub open spec fn spec_cost_value(c: Option<ManaCost>) -> nat {
    match c {
        Some(m) => spec_mana_value(m.components@),
        None => 0,
    }
}

impl Characteristics {
    /// Field-by-field equality, comparing lists by their contents.
    pub open spec fn same_as(&self, other: Characteristics) -> bool {
        &&& self.name == other.name
        &&& same_cost(self.mana_cost, other.mana_cost)
        &&& self.colors == other.colors
        &&& self.types == other.types
        &&& self.subtypes.0@ == other.subtypes.0@
        &&& self.supertypes == other.supertypes
        &&& self.power == other.power
        &&& self.toughness == other.toughness
        &&& self.loyalty == other.loyalty
        &&& self.abilities_text@ == other.abilities_text@
        &&& self.keywords@ == other.keywords@
        &&& self.is_aura == other.is_aura
        &&& self.is_fortification == other.is_fortification
    }

    /// A copy with the same contents.
    pub fn duplicate(&self) -> (r: Characteristics)
        ensures
            r.same_as(*self),
    {
        let mana_cost = match &self.mana_cost {
            Some(c) => Some(c.clone()),
            None => None,
        };
        Characteristics {
            name: self.name,
            mana_cost,
            colors: self.colors,
            types: self.types,
            subtypes: SubtypeSet(self.subtypes.0.clone()),
            supertypes: self.supertypes,
            power: self.power,
            toughness: self.toughness,
            loyalty: self.loyalty,
            abilities_text: self.abilities_text.clone(),
            keywords: self.keywords.clone(),
            is_aura: self.is_aura,
            is_fortification: self.is_fortification,
        }
    }

    pub fn is_permanent(&self) -> (b: bool)
        ensures
            b == self.types.has_bits(TypeLine::PERMANENT_TYPES),
    {
        self.types.is_permanent()
    }

    pub fn is_creature(&self) -> (b: bool)
        ensures
            b == self.types.has_bits(TypeLine::CREATURE),
    {
        self.types.is_creature()
    }

    pub fn is_land(&self) -> (b: bool)
        ensures
            b == self.types.has_bits(TypeLine::LAND),
    {
        self.types.is_land()
    }

    pub fn is_instant(&self) -> (b: bool)
        ensures
            b == self.types.has_bits(TypeLine::INSTANT),
    {
        self.types.is_instant()
    }

    pub fn is_sorcery(&self) -> (b: bool)
        ensures
            b == self.types.has_bits(TypeLine::SORCERY),
    {
        self.types.is_sorcery()
    }

    pub fn is_spell(&self) -> (b: bool)
        ensures
            b == self.types.has_bits(72),
    {
        self.types.is_spell()
    }

    /// Printed mana value (CR 202.3); zero without a mana cost.
    pub fn mana_value(&self) -> (n: u32)
        requires
            spec_cost_value(self.mana_cost) <= u32::MAX,
        ensures
            n == spec_cost_value(self.mana_cost),
    {
        match &self.mana_cost {
            Some(c) => c.mana_value(),
            None => 0,
        }
    }

    /// Does the object have keyword `k`?
    pub fn has_keyword(&self, k: KeywordAbility) -> (b: bool)
        ensures
            b == self.keywords@.contains(k),
    {
        let mut i: usize = 0;
        while i < self.keywords.len()
            invariant
                i <= self.keywords@.len(),
                forall|j: int| 0 <= j < i ==> self.keywords@[j] != k,
            decreases self.keywords@.len() - i,
        {
            if self.keywords[i] == k {
                return true;
            }
            i = i + 1;
        }
        false
    }
}

impl Default for Characteristics {
    fn default() -> (c: Characteristics)
        ensures
            c.name == 0,
            c.mana_cost is None,
            c.colors.0 == 0,
            c.types.0 == 0,
            c.subtypes.0@.len() == 0,
            c.supertypes.0 == 0,
            c.power is None,
            c.toughness is None,
            c.loyalty is None,
            c.abilities_text@.len() == 0,
            c.keywords@.len() == 0,
            !c.is_aura,
            !c.is_fortification,
    {
        Characteristics {
            name: 0,
            mana_cost: None,
            colors: ColorSet(0),
            types: TypeLine(0),
            subtypes: SubtypeSet(Vec::new()),
            supertypes: SupertypeSet(0),
            power: None,
            toughness: None,
            loyalty: None,
            abilities_text: Vec::new(),
            keywords: Vec::new(),
            is_aura: false,
            is_fortification: false,
        }
    }
}

// =============================================================================
// GameObject
// =============================================================================

/// Tapped / summoning-sick status of a permanent.
#[derive(Clone, Copy, Debug, PartialEq, Eq, Structural, Default)]
pub struct PermanentStatus {
    pub tapped: bool,
    /// Came under its controller's control this turn (CR 302.6).
    pub summoning_sick: bool,
}

/// An object in the game.
#[derive(Clone, Debug)]
pub struct GameObject {
    pub id: ObjectId,
    pub owner: PlayerId,
    pub controller: PlayerId,
    pub zone: Zone,
    /// Key into the card registry.
    pub card_id: CardId,
    pub characteristics: Characteristics,
    pub counters: CounterMap,
    /// Objects attached to this one (Auras, Equipment).
    pub attachments: Vec<ObjectId>,
    /// The object this one is attached to.
    pub attached_to: Option<ObjectId>,
    pub damage_marked: u32,
    /// Dealt nonzero damage by a deathtouch source since damage was last
    /// cleared (CR 702.2b).
    pub has_deathtouch_damage: bool,
    pub abilities: Vec<AbilityId>,
    pub status: PermanentStatus,
    /// Discarded with madness and waiting in exile (CR 702.34a).
    pub madness_pending: bool,
    /// Printed face shown: 0 = front, 1 = back (CR 712).
    pub visible_face: u8,
    /// Exiled after its Adventure resolved (CR 715).
    pub adventure_exile_pending: bool,
    /// A token rather than a card (CR 111).
    pub is_token: bool,
    /// Which predefined artifact token this is, if any.
    pub commodity: Option<CommodityToken>,
}

/// Net +1/+1 minus -1/-1 counters.
pub open spec fn spec_pt_adjustment(o: GameObject) -> int {
    o.counters.count(CounterKind::PlusOnePlusOne) - o.counters.count(CounterKind::MinusOneMinusOne)
}

/// Base power (with `star` for `*`) plus the P/T counters.
pub open spec fn spec_raw_power(o: GameObject, star: Option<i32>) -> Option<int> {
    match o.characteristics.power {
        Some(p) => match p.spec_resolve(star) {
            Some(v) => Some(v + spec_pt_adjustment(o)),
            None => None,
        },
        None => None,
    }
}

/// Base toughness (with `star` for `*`) plus the P/T counters.
pub open spec fn spec_raw_toughness(o: GameObject, star: Option<i32>) -> Option<int> {
    match o.characteristics.toughness {
        Some(t) => match t.spec_resolve(star) {
            Some(v) => Some(v + spec_pt_adjustment(o)),
            None => None,
        },
        None => None,
    }
}

/// The fields that CR 400.7 clears when an object changes zones.
pub open spec fn spec_reset(o: GameObject, r: GameObject) -> bool {
    &&& forall|k: CounterKind| #[trigger] r.counters.count(k) == 0
    &&& r.attachments@.len() == 0
    &&& r.attached_to is None
    &&& r.damage_marked == 0
    &&& !r.has_deathtouch_damage
    &&& r.status == (PermanentStatus { tapped: false, summoning_sick: false })
    &&& !r.madness_pending
    &&& !r.adventure_exile_pending
    &&& r.id == o.id
    &&& r.owner == o.owner
    &&& r.controller == o.controller
    &&& r.zone == o.zone
    &&& r.card_id == o.card_id
    &&& r.characteristics == o.characteristics
    &&& r.abilities == o.abilities
    &&& r.visible_face == o.visible_face
    &&& r.is_token == o.is_token
    &&& r.commodity == o.commodity
}

impl GameObject {
    /// Field-by-field equality, comparing lists by their contents.
    pub open spec fn same_as(&self, other: GameObject) -> bool {
        &&& self.id == other.id
        &&& self.owner == other.owner
        &&& self.controller == other.controller
        &&& self.zone == other.zone
        &&& self.card_id == other.card_id
        &&& self.characteristics.same_as(other.characteristics)
        &&& self.counters == other.counters
        &&& self.attachments@ == other.attachments@
        &&& self.attached_to == other.attached_to
        &&& self.damage_marked == other.damage_marked
        &&& self.has_deathtouch_damage == other.has_deathtouch_damage
        &&& self.abilities@ == other.abilities@
        &&& self.status == other.status
        &&& self.madness_pending == other.madness_pending
        &&& self.visible_face == other.visible_face
        &&& self.adventure_exile_pending == other.adventure_exile_pending
        &&& self.is_token == other.is_token
        &&& self.commodity == other.commodity
    }

    /// A copy with the same contents.
    pub fn duplicate(&self) -> (r: GameObject)
        ensures
            r.same_as(*self),
    {
        GameObject {
            id: self.id,
            owner: self.owner,
            controller: self.controller,
            zone: self.zone,
            card_id: self.card_id,
            characteristics: self.characteristics.duplicate(),
            counters: self.counters,
            attachments: self.attachments.clone(),
            attached_to: self.attached_to,
            damage_marked: self.damage_marked,
            has_deathtouch_damage: self.has_deathtouch_damage,
            abilities: self.abilities.clone(),
            status: self.status,
            madness_pending: self.madness_pending,
            visible_face: self.visible_face,
            adventure_exile_pending: self.adventure_exile_pending,
            is_token: self.is_token,
            commodity: self.commodity,
        }
    }

    /// A new object; its controller is its owner.
    pub fn new(
        id: ObjectId,
        owner: PlayerId,
        zone: Zone,
        card_id: CardId,
        characteristics: Characteristics,
    ) -> (o: GameObject)
        ensures
            o.id == id,
            o.owner == owner,
            o.controller == owner,
            o.zone == zone,
            o.card_id == card_id,
            o.characteristics == characteristics,
            forall|k: CounterKind| #[trigger] o.counters.count(k) == 0,
            o.attachments@.len() == 0,
            o.attached_to is None,
            o.damage_marked == 0,
            !o.has_deathtouch_damage,
            o.abilities@.len() == 0,
            o.status == (PermanentStatus { tapped: false, summoning_sick: false }),
            !o.madness_pending,
            o.visible_face == 0,
            !o.adventure_exile_pending,
            !o.is_token,
            o.commodity is None,
    {
        GameObject {
            id,
            owner,
            controller: owner,
            zone,
            card_id,
            characteristics,
            counters: CounterMap::new(),
            attachments: Vec::new(),
            attached_to: None,
            damage_marked: 0,
            has_deathtouch_damage: false,
            abilities: Vec::new(),
            status: PermanentStatus { tapped: false, summoning_sick: false },
            madness_pending: false,
            visible_face: 0,
            adventure_exile_pending: false,
            is_token: false,
            commodity: None,
        }
    }

    // --- Type-line queries --------------------------------------------------

    pub fn is_creature(&self) -> (b: bool)
        ensures
            b == self.characteristics.types.has_bits(TypeLine::CREATURE),
    {
        self.characteristics.types.is_creature()
    }

    pub fn is_land(&self) -> (b: bool)
        ensures
            b == self.characteristics.types.has_bits(TypeLine::LAND),
    {
        self.characteristics.types.is_land()
    }

    pub fn is_artifact(&self) -> (b: bool)
        ensures
            b == self.characteristics.types.has_bits(TypeLine::ARTIFACT),
    {
        self.characteristics.types.is_artifact()
    }

    pub fn is_enchantment(&self) -> (b: bool)
        ensures
            b == self.characteristics.types.has_bits(TypeLine::ENCHANTMENT),
    {
        self.characteristics.types.is_enchantment()
    }

    pub fn is_planeswalker(&self) -> (b: bool)
        ensures
            b == self.characteristics.types.has_bits(TypeLine::PLANESWALKER),
    {
        self.characteristics.types.is_planeswalker()
    }

    pub fn is_instant(&self) -> (b: bool)
        ensures
            b == self.characteristics.types.has_bits(TypeLine::INSTANT),
    {
        self.characteristics.types.is_instant()
    }

    pub fn is_sorcery(&self) -> (b: bool)
        ensures
            b == self.characteristics.types.has_bits(TypeLine::SORCERY),
    {
        self.characteristics.types.is_sorcery()
    }

    pub fn is_spell(&self) -> (b: bool)
        ensures
            b == self.characteristics.types.has_bits(72),
    {
        self.characteristics.types.is_spell()
    }

    /// On the battlefield and of a permanent type (CR 110.1).
    pub fn is_permanent_on_battlefield(&self) -> (b: bool)
        ensures
            b == (self.zone == Zone::Battlefield && self.characteristics.types.has_bits(
                TypeLine::PERMANENT_TYPES,
            )),
    {
        self.zone.is_battlefield() && self.characteristics.types.is_permanent()
    }

    // --- Tapped status ------------------------------------------------------

    pub fn is_tapped(&self) -> (b: bool)
        ensures
            b == self.status.tapped,
    {
        self.status.tapped
    }

    /// Tap this object. `true` if it was untapped.
    pub fn tap(&mut self) -> (changed: bool)
        ensures
            changed == !old(self).status.tapped,
            *final(self) == (GameObject { status: PermanentStatus { tapped: true, ..old(self).status }, ..*old(self) }),
    {
        if self.status.tapped {
            false
        } else {
            self.status.tapped = true;
            true
        }
    }

    /// Untap this object. `true` if it was tapped.
    pub fn untap(&mut self) -> (changed: bool)
        ensures
            changed == old(self).status.tapped,
            *final(self) == (GameObject { status: PermanentStatus { tapped: false, ..old(self).status }, ..*old(self) }),
    {
        if !self.status.tapped {
            false
        } else {
            self.status.tapped = false;
            true
        }
    }

    // --- Counters -----------------------------------------------------------

    pub fn count_counters(&self, kind: CounterKind) -> (n: u32)
        ensures
            n == self.counters.count(kind),
    {
        self.counters.get(kind)
    }

    pub fn has_counter(&self, kind: CounterKind) -> (b: bool)
        ensures
            b == (self.counters.count(kind) > 0),
    {
        self.count_counters(kind) > 0
    }

    /// Add `count` counters of `kind` (no-op for 0).
    pub fn add_counters(&mut self, kind: CounterKind, count: u32)
        requires
            old(self).counters.count(kind) + count <= u32::MAX,
        ensures
            final(self).counters.count(kind) == old(self).counters.count(kind) + count,
            forall|k: CounterKind| k != kind ==> #[trigger] final(self).counters.count(k) == old(self).counters.count(k),
            *final(self) == (GameObject { counters: final(self).counters, ..*old(self) }),
    {
        if count == 0 {
            return;
        }
        let n = self.counters.get(kind);
        self.counters.set(kind, n + count);
    }

    /// Remove up to `count` counters of `kind`; returns how many were removed.
    pub fn remove_counters(&mut self, kind: CounterKind, count: u32) -> (removed: u32)
        ensures
            removed == if old(self).counters.count(kind) < count {
                old(self).counters.count(kind)
            } else {
                count
            },
            final(self).counters.count(kind) == old(self).counters.count(kind) - removed,
            forall|k: CounterKind| k != kind ==> #[trigger] final(self).counters.count(k) == old(self).counters.count(k),
            *final(self) == (GameObject { counters: final(self).counters, ..*old(self) }),
    {
        if count == 0 {
            return 0;
        }
        let n = self.counters.get(kind);
        let removed = if n < count { n } else { count };
        if removed > 0 {
            self.counters.set(kind, n - removed);
        }
        removed
    }

    /// Annihilate matching +1/+1 and -1/-1 counters (CR 704.5p); returns the
    /// number of pairs removed.
    pub fn annihilate_pt_counters(&mut self) -> (pairs: u32)
        ensures
            ({
                let plus = old(self).counters.count(CounterKind::PlusOnePlusOne);
                let minus = old(self).counters.count(CounterKind::MinusOneMinusOne);
                &&& pairs == if plus < minus { plus } else { minus }
                &&& final(self).counters.count(CounterKind::PlusOnePlusOne) == plus - pairs
                &&& final(self).counters.count(CounterKind::MinusOneMinusOne) == minus - pairs
            }),
            forall|k: CounterKind|
                k != CounterKind::PlusOnePlusOne && k != CounterKind::MinusOneMinusOne
                    ==> #[trigger] final(self).counters.count(k) == old(self).counters.count(k),
            *final(self) == (GameObject { counters: final(self).counters, ..*old(self) }),
    {
        let plus = self.count_counters(CounterKind::PlusOnePlusOne);
        let minus = self.count_counters(CounterKind::MinusOneMinusOne);
        let pairs = if plus < minus { plus } else { minus };
        if pairs > 0 {
            self.remove_counters(CounterKind::PlusOnePlusOne, pairs);
            self.remove_counters(CounterKind::MinusOneMinusOne, pairs);
        }
        pairs
    }

    // --- Damage -------------------------------------------------------------

    /// Mark damage, saturating at `u32::MAX`.
    pub fn mark_damage(&mut self, amount: u32)
        ensures
            final(self).damage_marked == if old(self).damage_marked + amount > u32::MAX {
                u32::MAX as int
            } else {
                old(self).damage_marked + amount
            },
            *final(self) == (GameObject { damage_marked: final(self).damage_marked, ..*old(self) }),
    {
        self.damage_marked = self.damage_marked.saturating_add(amount);
    }

    pub fn clear_damage(&mut self)
        ensures
            *final(self) == (GameObject { damage_marked: 0, has_deathtouch_damage: false, ..*old(self) }),
    {
        self.damage_marked = 0;
        self.has_deathtouch_damage = false;
    }

    // --- Raw P/T ------------------------------------------------------------

    /// Net P/T change from +1/+1 and -1/-1 counters.
    fn pt_counter_adjustment(&self) -> (d: i64)
        ensures
            d == spec_pt_adjustment(*self),
    {
        let plus = self.count_counters(CounterKind::PlusOnePlusOne) as i64;
        let minus = self.count_counters(CounterKind::MinusOneMinusOne) as i64;
        plus - minus
    }

    /// Base power plus P/T counters; `None` for a non-creature, or for `*`
    /// power without `star_value`.
    pub fn raw_power_with_counters(&self, star_value: Option<i32>) -> (r: Option<i32>)
        requires
            spec_raw_power(*self, star_value) matches Some(v) ==> i32::MIN <= v <= i32::MAX,
            self.characteristics.power matches Some(p) ==> (p.spec_resolve(star_value) matches Some(v)
                ==> i32::MIN <= v <= i32::MAX),
        ensures
            r matches Some(v) ==> spec_raw_power(*self, star_value) == Some(v as int),
            r is None ==> spec_raw_power(*self, star_value) is None,
    {
        match self.characteristics.power {
            Some(p) => match p.resolve(star_value) {
                Some(base) => {
                    let v = base as i64 + self.pt_counter_adjustment();
                    Some(v as i32)
                },
                None => None,
            },
            None => None,
        }
    }

    /// Base toughness plus P/T counters; `None` for a non-creature, or for
    /// `*` toughness without `star_value`.
    pub fn raw_toughness_with_counters(&self, star_value: Option<i32>) -> (r: Option<i32>)
        requires
            spec_raw_toughness(*self, star_value) matches Some(v) ==> i32::MIN <= v <= i32::MAX,
            self.characteristics.toughness matches Some(t) ==> (t.spec_resolve(star_value) matches Some(v)
                ==> i32::MIN <= v <= i32::MAX),
        ensures
            r matches Some(v) ==> spec_raw_toughness(*self, star_value) == Some(v as int),
            r is None ==> spec_raw_toughness(*self, star_value) is None,
    {
        match self.characteristics.toughness {
            Some(t) => match t.resolve(star_value) {
                Some(base) => {
                    let v = base as i64 + self.pt_counter_adjustment();
                    Some(v as i32)
                },
                None => None,
            },
            None => None,
        }
    }

    /// CR 704.5g with counter-only toughness: damage at least a positive
    /// toughness.
    pub fn has_raw_lethal_damage(&self) -> (b: bool)
        requires
            spec_raw_toughness(*self, None) matches Some(v) ==> i32::MIN <= v <= i32::MAX,
            self.characteristics.toughness matches Some(t) ==> (t.spec_resolve(None) matches Some(v)
                ==> i32::MIN <= v <= i32::MAX),
        ensures
            b == (spec_raw_toughness(*self, None) matches Some(t) && t > 0 && self.damage_marked >= t),
    {
        match self.raw_toughness_with_counters(None) {
            Some(t) => t > 0 && self.damage_marked as i64 >= t as i64,
            None => false,
        }
    }

    // --- Attachment ---------------------------------------------------------

    pub fn is_attached(&self) -> (b: bool)
        ensures
            b == self.attached_to is Some,
    {
        self.attached_to.is_some()
    }

    /// Attach to `target` (the target's `attachments` is the caller's job).
    pub fn attach_to(&mut self, target: ObjectId)
        ensures
            *final(self) == (GameObject { attached_to: Some(target), ..*old(self) }),
    {
        self.attached_to = Some(target);
    }

    pub fn detach(&mut self)
        ensures
            *final(self) == (GameObject { attached_to: None, ..*old(self) }),
    {
        self.attached_to = None;
    }

    /// Clear the per-zone fields when the object changes zones (CR 400.7).
    pub fn reset_on_zone_change(&mut self)
        ensures
            spec_reset(*old(self), *final(self)),
    {
        self.counters.clear();
        self.attachments = Vec::new();
        self.attached_to = None;
        self.damage_marked = 0;
        self.has_deathtouch_damage = false;
        self.status = PermanentStatus { tapped: false, summoning_sick: false };
        self.madness_pending = false;
        self.adventure_exile_pending = false;
    }
}

// =============================================================================
// ObjectArena
// =============================================================================

/// Ids in strictly increasing order.
pub open spec fn ids_sorted(ids: Seq<ObjectId>) -> bool {
    forall|i: int, j: int| 0 <= i < j < ids.len() ==> ids[i] < ids[j]
}

/// Every object in the game, sorted by id. `ids[i]` is the key of
/// `objs[i]` and equals its `id` field.
#[derive(Clone, Debug, Default)]
pub struct ObjectArena {
    pub ids: Vec<ObjectId>,
    pub objs: Vec<GameObject>,
}

impl View for ObjectArena {
    type V = Map<ObjectId, GameObject>;

    /// The objects by id.
    open spec fn view(&self) -> Map<ObjectId, GameObject> {
        Map::new(|k: ObjectId| self.ids@.contains(k), |k: ObjectId| self.objs@[self.index_of(k)])
    }
}

impl ObjectArena {
    pub open spec fn wf(&self) -> bool {
        &&& self.ids@.len() == self.objs@.len()
        &&& ids_sorted(self.ids@)
        &&& forall|i: int| 0 <= i < self.objs@.len() ==> #[trigger] self.objs@[i].id == self.ids@[i]
    }

    /// Position of `id` (meaningful when present).
    pub open spec fn index_of(&self, id: ObjectId) -> int {
        choose|i: int| 0 <= i < self.ids@.len() && self.ids@[i] == id
    }

    /// Objects by position.
    pub open spec fn seq(&self) -> Seq<GameObject> {
        self.objs@
    }

    pub fn new() -> (a: ObjectArena)
        ensures
            a.wf(),
            a.objs@.len() == 0,
            a@ == Map::<ObjectId, GameObject>::empty(),
    {
        let a = ObjectArena { ids: Vec::new(), objs: Vec::new() };
        assert(a@ =~= Map::<ObjectId, GameObject>::empty());
        a
    }

    pub fn len(&self) -> (n: usize)
        requires
            self.wf(),
        ensures
            n == self.objs@.len(),
            n == self@.dom().len(),
    {
        proof {
            self.lemma_dom_len();
        }
        self.objs.len()
    }

    pub fn is_empty(&self) -> (b: bool)
        requires
            self.wf(),
        ensures
            b == (self.objs@.len() == 0),
            b == (self@.dom().len() == 0),
    {
        proof {
            self.lemma_dom_len();
        }
        self.objs.len() == 0
    }

    /// The object at position `i` is the one keyed by its id.
    pub proof fn lemma_at(&self, i: int)
        requires
            self.wf(),
            0 <= i < self.objs@.len(),
        ensures
            self@.contains_key(self.objs@[i].id),
            self.index_of(self.objs@[i].id) == i,
            self@[self.objs@[i].id] == self.objs@[i],
    {
        let id = self.ids@[i];
        assert(self.ids@.contains(id));
        let j = self.index_of(id);
        if j < i {
            assert(self.ids@[j] < self.ids@[i]);
        } else if i < j {
            assert(self.ids@[i] < self.ids@[j]);
        }
    }

    /// A present id sits at its index.
    pub proof fn lemma_index(&self, id: ObjectId)
        requires
            self.wf(),
            self@.contains_key(id),
        ensures
            0 <= self.index_of(id) < self.objs@.len(),
            self.ids@[self.index_of(id)] == id,
            self.objs@[self.index_of(id)].id == id,
            self@[id] == self.objs@[self.index_of(id)],
    {
    }

    proof fn lemma_dom_len(&self)
        requires
            self.wf(),
        ensures
            self@.dom().len() == self.objs@.len(),
    {
        assert(self.ids@.no_duplicates()) by {
            assert forall|i: int, j: int| 0 <= i < self.ids@.len() && 0 <= j < self.ids@.len() && i != j
                implies self.ids@[i] != self.ids@[j] by {
                if i < j {
                    assert(self.ids@[i] < self.ids@[j]);
                } else {
                    assert(self.ids@[j] < self.ids@[i]);
                }
            }
        }
        assert(self@.dom() =~= self.ids@.to_set());
        self.ids@.unique_seq_to_set();
    }

    /// Position of `id`, if present.
    pub fn find(&self, id: ObjectId) -> (r: Option<usize>)
        requires
            self.wf(),
        ensures
            r matches Some(i) ==> i < self.objs@.len() && self.ids@[i as int] == id && self.index_of(id) == i,
            r is None ==> !self@.contains_key(id),
            r is Some == self@.contains_key(id),
    {
        let mut i: usize = 0;
        while i < self.ids.len()
            invariant
                self.wf(),
                i <= self.ids@.len(),
                forall|k: int| 0 <= k < i ==> self.ids@[k] != id,
            decreases self.ids@.len() - i,
        {
            if self.ids[i] == id {
                proof {
                    self.lemma_at(i as int);
                }
                return Some(i);
            }
            i = i + 1;
        }
        None
    }

    pub fn contains(&self, id: ObjectId) -> (b: bool)
        requires
            self.wf(),
        ensures
            b == self@.contains_key(id),
    {
        self.find(id).is_some()
    }

    pub fn get(&self, id: ObjectId) -> (r: Option<&GameObject>)
        requires
            self.wf(),
        ensures
            r is Some == self@.contains_key(id),
            r matches Some(o) ==> *o == self@[id],
    {
        match self.find(id) {
            Some(i) => {
                proof {
                    self.lemma_at(i as int);
                }
                Some(&self.objs[i])
            },
            None => None,
        }
    }

    /// Mutable access to the object keyed `id`. The caller keeps its `id`
    /// field unchanged.
    pub fn get_mut(&mut self, id: ObjectId) -> (r: Option<&mut GameObject>)
        requires
            old(self).wf(),
        ensures
            r is Some == old(self)@.contains_key(id),
            r matches Some(o) ==> *o == old(self)@[id],
            r is Some ==> final(self).ids@ == old(self).ids@ && final(self).objs@ == old(self).objs@.update(
                old(self).index_of(id),
                *final(r.unwrap()),
            ),
            r is None ==> *final(self) == *old(self),
    {
        match self.find(id) {
            Some(i) => {
                proof {
                    self.lemma_at(i as int);
                }
                Some(&mut self.objs[i])
            },
            None => None,
        }
    }

    /// Updating the object at a present id (keeping its id) keeps the arena
    /// well formed and updates the view at that id.
    pub proof fn lemma_update(&self, other: ObjectArena, id: ObjectId, o: GameObject)
        requires
            self.wf(),
            self@.contains_key(id),
            o.id == id,
            other.ids@ == self.ids@,
            other.objs@ == self.objs@.update(self.index_of(id), o),
        ensures
            other.wf(),
            other@ == self@.insert(id, o),
            other.index_of(id) == self.index_of(id),
    {
        let i = self.index_of(id);
        assert forall|k: ObjectId| #[trigger] other@.contains_key(k) implies other@[k] == self@.insert(id, o)[k] by {
            let j = other.index_of(k);
            self.lemma_at(j);
            if j == i {
            } else {
                assert(self.objs@[j] == other.objs@[j]);
            }
        }
        assert(other@ =~= self@.insert(id, o));
    }

    /// Insert a new object; its id must not be present yet.
    pub fn insert(&mut self, obj: GameObject) -> (id: ObjectId)
        requires
            old(self).wf(),
            !old(self)@.contains_key(obj.id),
        ensures
            id == obj.id,
            final(self).wf(),
            final(self)@ == old(self)@.insert(obj.id, obj),
            exists|pos: int|
                0 <= pos <= old(self).objs@.len() && final(self).objs@ == old(self).objs@.insert(pos, obj)
                    && final(self).ids@ == old(self).ids@.insert(pos, obj.id),
    {
        let id = obj.id;
        let mut pos: usize = 0;
        while pos < self.ids.len() && self.ids[pos] < id
            invariant
                self.wf(),
                pos <= self.ids@.len(),
                forall|k: int| 0 <= k < pos ==> self.ids@[k] < id,
            decreases self.ids@.len() - pos,
        {
            pos = pos + 1;
        }
        let ghost old_ids = self.ids@;
        let ghost old_objs = self.objs@;
        proof {
            assert forall|k: int| pos <= k < old_ids.len() implies old_ids[k] > id by {
                assert(old_ids[pos as int] >= id);
                if old_ids[pos as int] == id {
                    assert(old_ids.contains(id));
                }
                if k > pos {
                    assert(old_ids[pos as int] < old_ids[k]);
                }
            }
        }
        self.ids.insert(pos, id);
        self.objs.insert(pos, obj);
        proof {
            assert(ids_sorted(self.ids@)) by {
                assert forall|i: int, j: int| 0 <= i < j < self.ids@.len() implies self.ids@[i] < self.ids@[j] by {
                    if j < pos {
                    } else if i < pos && j == pos {
                    } else if i < pos && j > pos {
                        assert(self.ids@[j] == old_ids[j - 1]);
                    } else if i == pos {
                        assert(self.ids@[j] == old_ids[j - 1]);
                    } else {
                        assert(self.ids@[i] == old_ids[i - 1]);
                        assert(self.ids@[j] == old_ids[j - 1]);
                    }
                }
            }
            assert forall|i: int| 0 <= i < self.objs@.len() implies #[trigger] self.objs@[i].id == self.ids@[i] by {
                if i < pos {
                    assert(self.objs@[i] == old_objs[i]);
                } else if i > pos {
                    assert(self.objs@[i] == old_objs[i - 1]);
                }
            }
            assert forall|k: ObjectId| #[trigger] self@.contains_key(k) <==> old(self)@.insert(id, obj).contains_key(k) by {
                if self.ids@.contains(k) {
                    let j = choose|j: int| 0 <= j < self.ids@.len() && self.ids@[j] == k;
                    if j < pos {
                        assert(old_ids[j] == k);
                    } else if j > pos {
                        assert(old_ids[j - 1] == k);
                    }
                }
                if old_ids.contains(k) {
                    let j = choose|j: int| 0 <= j < old_ids.len() && old_ids[j] == k;
                    if j < pos {
                        assert(self.ids@[j] == k);
                    } else {
                        assert(self.ids@[j + 1] == k);
                    }
                }
                if k == id {
                    assert(self.ids@[pos as int] == id);
                }
            }
            assert forall|k: ObjectId| #[trigger] self@.contains_key(k) implies self@[k] == old(self)@.insert(id, obj)[k] by {
                let j = self.index_of(k);
                self.lemma_at(j);
                if j < pos {
                    old(self).lemma_at(j);
                    assert(self.objs@[j] == old_objs[j]);
                } else if j > pos {
                    old(self).lemma_at(j - 1);
                    assert(self.objs@[j] == old_objs[j - 1]);
                }
            }
            assert(self@ =~= old(self)@.insert(id, obj));
        }
        id
    }

    /// Remove and return the object keyed `id`, if present.
    pub fn remove(&mut self, id: ObjectId) -> (r: Option<GameObject>)
        requires
            old(self).wf(),
        ensures
            final(self).wf(),
            r is Some == old(self)@.contains_key(id),
            r matches Some(o) ==> o == old(self)@[id],
            final(self)@ == old(self)@.remove(id),
            r is Some ==> final(self).objs@ == old(self).objs@.remove(old(self).index_of(id))
                && final(self).ids@ == old(self).ids@.remove(old(self).index_of(id)),
            r is None ==> *final(self) == *old(self),
    {
        match self.find(id) {
            Some(pos) => {
                proof {
                    self.lemma_at(pos as int);
                }
                let ghost old_ids = self.ids@;
                let ghost old_objs = self.objs@;
                self.ids.remove(pos);
                let o = self.objs.remove(pos);
                proof {
                    assert forall|i: int, j: int| 0 <= i < j < self.ids@.len() implies self.ids@[i] < self.ids@[j] by {
                        if j < pos {
                        } else if i < pos {
                            assert(self.ids@[j] == old_ids[j + 1]);
                        } else {
                            assert(self.ids@[i] == old_ids[i + 1]);
                            assert(self.ids@[j] == old_ids[j + 1]);
                        }
                    }
                    assert forall|i: int| 0 <= i < self.objs@.len() implies #[trigger] self.objs@[i].id == self.ids@[i] by {
                        if i < pos {
                            assert(self.objs@[i] == old_objs[i]);
                        } else {
                            assert(self.objs@[i] == old_objs[i + 1]);
                        }
                    }
                    assert forall|k: ObjectId| #[trigger] self@.contains_key(k) <==> old(self)@.remove(id).contains_key(k) by {
                        if self.ids@.contains(k) {
                            let j = choose|j: int| 0 <= j < self.ids@.len() && self.ids@[j] == k;
                            if j < pos {
                                assert(old_ids[j] == k);
                                assert(old_ids[j] < old_ids[pos as int]);
                            } else {
                                assert(old_ids[j + 1] == k);
                                assert(old_ids[pos as int] < old_ids[j + 1]);
                            }
                        }
                        if old_ids.contains(k) && k != id {
                            let j = choose|j: int| 0 <= j < old_ids.len() && old_ids[j] == k;
                            if j < pos {
                                assert(self.ids@[j] == k);
                            } else {
                                assert(j != pos);
                                assert(self.ids@[j - 1] == k);
                            }
                        }
                    }
                    assert forall|k: ObjectId| #[trigger] self@.contains_key(k) implies self@[k] == old(self)@.remove(id)[k] by {
                        let j = self.index_of(k);
                        self.lemma_at(j);
                        if j < pos {
                            old(self).lemma_at(j);
                            assert(self.objs@[j] == old_objs[j]);
                        } else {
                            old(self).lemma_at(j + 1);
                            assert(self.objs@[j] == old_objs[j + 1]);
                        }
                    }
                    assert(self@ =~= old(self)@.remove(id));
                }
                Some(o)
            },
            None => {
                proof {
                    assert(old(self)@.remove(id) =~= old(self)@);
                }
                None
            },
        }
    }

    /// References to the objects satisfying `p`, in arena order, given as
    /// references `refs` whose targets are `expected`.
    pub open spec fn refs_match(refs: Seq<&GameObject>, expected: Seq<GameObject>) -> bool {
        &&& refs.len() == expected.len()
        &&& forall|k: int| 0 <= k < refs.len() ==> *#[trigger] refs[k] == expected[k]
    }

    /// All objects currently in `zone`, ascending by id.
    pub fn objects_in_zone(&self, zone: Zone) -> (it: std::vec::IntoIter<&GameObject>)
        ensures
            Self::refs_match(
                vstd::std_specs::iter::IteratorSpec::remaining(&it),
                self.objs@.filter(|o: GameObject| o.zone == zone),
            ),
    {
        let ghost p = |o: GameObject| o.zone == zone;
        let mut v: Vec<&GameObject> = Vec::new();
        let mut i: usize = 0;
        while i < self.objs.len()
            invariant
                i <= self.objs@.len(),
                p == (|o: GameObject| o.zone == zone),
                Self::refs_match(v@, self.objs@.take(i as int).filter(p)),
            decreases self.objs@.len() - i,
        {
            proof {
                assert(self.objs@.take(i + 1) =~= self.objs@.take(i as int).push(self.objs@[i as int]));
                self.objs@.take(i as int).lemma_filter_push(self.objs@[i as int], p);
            }
            if self.objs[i].zone == zone {
                v.push(&self.objs[i]);
            }
            i = i + 1;
        }
        proof {
            assert(self.objs@.take(i as int) =~= self.objs@);
        }
        let it = v.into_iter();
        proof {
            vstd::std_specs::vec::axiom_spec_into_iter(v);
        }
        it
    }

    /// All objects in any zone of kind `kind` ("any graveyard").
    pub fn objects_in_zone_kind(&self, kind: ZoneKind) -> (it: std::vec::IntoIter<&GameObject>)
        ensures
            Self::refs_match(
                vstd::std_specs::iter::IteratorSpec::remaining(&it),
                self.objs@.filter(|o: GameObject| spec_zone_kind(o.zone) == kind),
            ),
    {
        let ghost p = |o: GameObject| spec_zone_kind(o.zone) == kind;
        let mut v: Vec<&GameObject> = Vec::new();
        let mut i: usize = 0;
        while i < self.objs.len()
            invariant
                i <= self.objs@.len(),
                p == (|o: GameObject| spec_zone_kind(o.zone) == kind),
                Self::refs_match(v@, self.objs@.take(i as int).filter(p)),
            decreases self.objs@.len() - i,
        {
            proof {
                assert(self.objs@.take(i + 1) =~= self.objs@.take(i as int).push(self.objs@[i as int]));
                self.objs@.take(i as int).lemma_filter_push(self.objs@[i as int], p);
            }
            if self.objs[i].zone.kind() == kind {
                v.push(&self.objs[i]);
            }
            i = i + 1;
        }
        proof {
            assert(self.objs@.take(i as int) =~= self.objs@);
        }
        let it = v.into_iter();
        proof {
            vstd::std_specs::vec::axiom_spec_into_iter(v);
        }
        it
    }

    /// All objects controlled by `player`.
    pub fn objects_controlled_by(&self, player: PlayerId) -> (it: std::vec::IntoIter<&GameObject>)
        ensures
            Self::refs_match(
                vstd::std_specs::iter::IteratorSpec::remaining(&it),
                self.objs@.filter(|o: GameObject| o.controller == player),
            ),
    {
        let ghost p = |o: GameObject| o.controller == player;
        let mut v: Vec<&GameObject> = Vec::new();
        let mut i: usize = 0;
        while i < self.objs.len()
            invariant
                i <= self.objs@.len(),
                p == (|o: GameObject| o.controller == player),
                Self::refs_match(v@, self.objs@.take(i as int).filter(p)),
            decreases self.objs@.len() - i,
        {
            proof {
                assert(self.objs@.take(i + 1) =~= self.objs@.take(i as int).push(self.objs@[i as int]));
                self.objs@.take(i as int).lemma_filter_push(self.objs@[i as int], p);
            }
            if self.objs[i].controller == player {
                v.push(&self.objs[i]);
            }
            i = i + 1;
        }
        proof {
            assert(self.objs@.take(i as int) =~= self.objs@);
        }
        let it = v.into_iter();
        proof {
            vstd::std_specs::vec::axiom_spec_into_iter(v);
        }
        it
    }

    /// Number of objects in `zone`.
    pub fn count_in_zone(&self, zone: Zone) -> (n: usize)
        ensures
            n == self.objs@.filter(|o: GameObject| o.zone == zone).len(),
    {
        let ghost p = |o: GameObject| o.zone == zone;
        let mut n: usize = 0;
        let mut i: usize = 0;
        while i < self.objs.len()
            invariant
                i <= self.objs@.len(),
                p == (|o: GameObject| o.zone == zone),
                n == self.objs@.take(i as int).filter(p).len(),
                n <= i,
            decreases self.objs@.len() - i,
        {
            proof {
                assert(self.objs@.take(i + 1) =~= self.objs@.take(i as int).push(self.objs@[i as int]));
                self.objs@.take(i as int).lemma_filter_push(self.objs@[i as int], p);
            }
            if self.objs[i].zone == zone {
                n = n + 1;
            }
            i = i + 1;
        }
        proof {
            assert(self.objs@.take(i as int) =~= self.objs@);
        }
        n
    }

    /// Ids of the objects in `zone`, ascending.
    pub fn ids_in_zone_sorted(&self, zone: Zone) -> (v: Vec<ObjectId>)
        requires
            self.wf(),
        ensures
            v@ == self.objs@.filter(|o: GameObject| o.zone == zone).map_values(|o: GameObject| o.id),
            ids_sorted(v@),
    {
        let ghost p = |o: GameObject| o.zone == zone;
        let ghost f = |o: GameObject| o.id;
        let mut v: Vec<ObjectId> = Vec::new();
        let mut i: usize = 0;
        while i < self.objs.len()
            invariant
                self.wf(),
                i <= self.objs@.len(),
                p == (|o: GameObject| o.zone == zone),
                f == (|o: GameObject| o.id),
                v@ == self.objs@.take(i as int).filter(p).map_values(f),
                forall|k: int| 0 <= k < v@.len() ==> exists|j: int| 0 <= j < i && #[trigger] v@[k] == self.ids@[j] && (k + 1 < v@.len() ==> true),
                ids_sorted(v@),
                v@.len() > 0 ==> exists|j: int| 0 <= j < i && v@.last() == self.ids@[j],
            decreases self.objs@.len() - i,
        {
            proof {
                assert(self.objs@.take(i + 1) =~= self.objs@.take(i as int).push(self.objs@[i as int]));
                self.objs@.take(i as int).lemma_filter_push(self.objs@[i as int], p);
            }
            if self.objs[i].zone == zone {
                let ghost before = v@;
                v.push(self.objs[i].id);
                proof {
                    assert(self.objs@[i as int].id == self.ids@[i as int]);
                    assert forall|a: int, b: int| 0 <= a < b < v@.len() implies v@[a] < v@[b] by {
                        if b == v@.len() - 1 {
                            let j = choose|j: int| 0 <= j < i && #[trigger] before[a] == self.ids@[j] && (a + 1 < before.len() ==> true);
                            assert(before[a] == self.ids@[j]);
                            assert(self.ids@[j] < self.ids@[i as int]);
                        }
                    }
                    assert forall|k: int| 0 <= k < v@.len() implies exists|j: int| 0 <= j < i + 1 && #[trigger] v@[k] == self.ids@[j] && (k + 1 < v@.len() ==> true) by {
                        if k == v@.len() - 1 {
                            assert(v@[k] == self.ids@[i as int]);
                        } else {
                            assert(v@[k] == before[k]);
                            let j = choose|j: int| 0 <= j < i && #[trigger] before[k] == self.ids@[j] && (k + 1 < before.len() ==> true);
                            assert(v@[k] == self.ids@[j]);
                        }
                    }
                    assert(self.objs@.take(i as int).filter(p).push(self.objs@[i as int]).map_values(f)
                        =~= self.objs@.take(i as int).filter(p).map_values(f).push(self.objs@[i as int].id));
                }
            } else {
                proof {
                    assert forall|k: int| 0 <= k < v@.len() implies exists|j: int| 0 <= j < i + 1 && #[trigger] v@[k] == self.ids@[j] && (k + 1 < v@.len() ==> true) by {
                        let j = choose|j: int| 0 <= j < i && #[trigger] v@[k] == self.ids@[j] && (k + 1 < v@.len() ==> true);
                    }
                }
            }
            i = i + 1;
        }
        proof {
            assert(self.objs@.take(i as int) =~= self.objs@);
        }
        v
    }

    /// All objects, in ascending id order.
    pub fn iter(&self) -> (it: std::slice::Iter<'_, GameObject>)
        ensures
            vstd::std_specs::iter::IteratorSpec::remaining(&it) == self.objs@.as_ref(),
    {
        let sl = self.objs.as_slice();
        let it = sl.iter();
        proof {
            vstd::std_specs::slice::axiom_spec_slice_iter(sl);
        }
        it
    }

    /// All ids, ascending.
    pub fn ids(&self) -> (v: Vec<ObjectId>)
        ensures
            v@ == self.ids@,
    {
        self.ids.clone()
    }
}

} // verus!
