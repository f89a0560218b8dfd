//! The card registry: every card the engine knows, by [`CardId`] and by
//! name, together with the string interner that names cards and
//! subtypes.
//!
//! Ids are handed out from 1 upwards in registration order; `0` is never
//! a registered id and stands for "not from the registry".

use vstd::prelude::*;
use crate::mana::ManaCost;
use crate::objects::{Characteristics, ObjectId};
use crate::targets::{TargetRequirement, TargetSelection};
use crate::types::{CardId, CounterKind, PlayerId, SmallString, StringInterner};

verus! {

/// What an activated ability's resolution is told about its activation.
#[derive(Clone, Debug)]
pub struct ActivationContext {
    pub source: ObjectId,
    pub controller: PlayerId,
    pub ability_index: usize,
    pub targets: TargetSelection,
    pub x_value: Option<u32>,
}

/// "Enters with ..." clauses printed on a card (CR 121.6a).
#[derive(Clone, Copy, Debug, PartialEq, Eq, Structural)]
pub enum EntersWithSpec {
    /// Enters with `count` counters of `kind`.
    Counters { kind: CounterKind, count: u32 },
    /// Enters with X counters of `kind`.
    CountersFromX { kind: CounterKind },
    /// Enters with a counter of `kind` for each card exiled to pay delve.
    CountersFromDelveCount { kind: CounterKind },
    /// Enters tapped.
    Tapped,
}

/// One clause of a modal spell (CR 700.2).
#[derive(Clone, Debug)]
pub struct ModeClause {
    pub text: String,
    pub target_requirements: Vec<TargetRequirement>,
}

/// The modes of a modal spell: choose between `min_modes` and
/// `max_modes` of `clauses`.
#[derive(Clone, Debug)]
pub struct ModalSpec {
    pub min_modes: usize,
    pub max_modes: usize,
    pub clauses: Vec<ModeClause>,
}

/// The modes chosen for one cast, as clause indices in card order.
#[derive(Clone, Debug, Default)]
pub struct ModeChoice {
    pub mode_indices: Vec<usize>,
}

/// What an instant or sorcery does when it resolves.
#[derive(Clone, Debug)]
pub struct SpellAbilityDef {
    /// Rules text.
    pub text: String,
    /// Targets of a non-modal spell, slot by slot.
    pub target_requirements: Vec<TargetRequirement>,
    /// The modes of a modal spell; `None` for the usual non-modal spell.
    pub modal: Option<ModalSpec>,
}

/// The costs of an activated ability other than its targets.
#[derive(Clone, Debug)]
pub struct ActivationCost {
    pub mana_cost: ManaCost,
    /// `{T}` (CR 602.1b).
    pub tap: bool,
    /// Sacrifice the source.
    pub sacrifice: bool,
    /// Life to pay; 0 for none.
    pub life: u32,
    /// Remove counters of this kind from the source.
    pub remove_self_counter: Option<(CounterKind, u32)>,
    /// Put counters of this kind on the source.
    pub add_self_counter: Option<(CounterKind, u32)>,
}

/// `c` costs nothing at all.
pub open spec fn spec_free_cost(c: ActivationCost) -> bool {
    &&& c.mana_cost.components@.len() == 0
    &&& !c.tap
    &&& !c.sacrifice
    &&& c.life == 0
    &&& c.remove_self_counter is None
    &&& c.add_self_counter is None
}

impl Default for ActivationCost {
    fn default() -> (c: ActivationCost)
        ensures
            spec_free_cost(c),
    {
        ActivationCost {
            mana_cost: ManaCost::empty(),
            tap: false,
            sacrifice: false,
            life: 0,
            remove_self_counter: None,
            add_self_counter: None,
        }
    }
}

impl ActivationCost {
    /// `{T}` and nothing else, as on a basic land's mana ability.
    pub fn tap_only() -> (c: ActivationCost)
        ensures
            c.tap,
            c.mana_cost.components@.len() == 0,
            !c.sacrifice,
            c.life == 0,
            c.remove_self_counter is None,
            c.add_self_counter is None,
    {
        ActivationCost {
            mana_cost: ManaCost::empty(),
            tap: true,
            sacrifice: false,
            life: 0,
            remove_self_counter: None,
            add_self_counter: None,
        }
    }

    /// No cost at all.
    pub fn free() -> (c: ActivationCost)
        ensures
            spec_free_cost(c),
    {
        ActivationCost::default()
    }
}

/// An ability of the form "cost: effect" (CR 602).
#[derive(Clone, Debug)]
pub struct ActivatedAbilityDef {
    pub text: String,
    pub cost: ActivationCost,
    pub target_requirements: Vec<TargetRequirement>,
    /// A mana ability (CR 605): it does not use the stack.
    pub is_mana_ability: bool,
    /// A loyalty ability (CR 606).
    pub is_loyalty_ability: bool,
}

/// A card's printed form and abilities.
#[derive(Clone, Debug)]
pub struct CardDefinition {
    /// Interned card name.
    pub name: SmallString,
    /// Characteristics a new object of this card starts from.
    pub base_characteristics: Characteristics,
    /// Resolution of an instant or sorcery; `None` for permanents.
    pub spell_ability: Option<SpellAbilityDef>,
    pub activated_abilities: Vec<ActivatedAbilityDef>,
    pub enters_with: Vec<EntersWithSpec>,
}

impl CardDefinition {
    /// A card with no abilities.
    pub fn new(name: SmallString, characteristics: Characteristics) -> (d: CardDefinition)
        ensures
            d.name == name,
            d.base_characteristics == characteristics,
            d.spell_ability is None,
            d.activated_abilities@.len() == 0,
            d.enters_with@.len() == 0,
    {
        CardDefinition {
            name,
            base_characteristics: characteristics,
            spell_ability: None,
            activated_abilities: Vec::new(),
            enters_with: Vec::new(),
        }
    }

    pub fn with_spell_ability(self, ability: SpellAbilityDef) -> (d: CardDefinition)
        ensures
            d == (CardDefinition { spell_ability: Some(ability), ..self }),
    {
        let mut d = self;
        d.spell_ability = Some(ability);
        d
    }

    pub fn with_activated_ability(self, ability: ActivatedAbilityDef) -> (d: CardDefinition)
        ensures
            d.name == self.name,
            d.base_characteristics == self.base_characteristics,
            d.spell_ability == self.spell_ability,
            d.activated_abilities@ == self.activated_abilities@.push(ability),
            d.enters_with@ == self.enters_with@,
    {
        let mut d = self;
        d.activated_abilities.push(ability);
        d
    }

    pub fn with_enters_with(self, spec: EntersWithSpec) -> (d: CardDefinition)
        ensures
            d.name == self.name,
            d.base_characteristics == self.base_characteristics,
            d.spell_ability == self.spell_ability,
            d.activated_abilities@ == self.activated_abilities@,
            d.enters_with@ == self.enters_with@.push(spec),
    {
        let mut d = self;
        d.enters_with.push(spec);
        d
    }
}

/// Requirements of the chosen clauses, in the order of `indices`
/// (indices past the last clause contribute nothing).
pub open spec fn chosen_requirements(clauses: Seq<ModeClause>, indices: Seq<usize>) -> Seq<TargetRequirement>
    decreases indices.len(),
{
    if indices.len() == 0 {
        Seq::empty()
    } else {
        let i = indices.last();
        chosen_requirements(clauses, indices.drop_last()) + if i < clauses.len() {
            clauses[i as int].target_requirements@
        } else {
            Seq::empty()
        }
    }
}

/// The targets a cast must choose: the flat list of a non-modal spell;
/// for a modal spell the chosen clauses' requirements in card order
/// (CR 700.2c), none when no modes were chosen.
pub open spec fn spec_effective_targets(ability: SpellAbilityDef, modes: Seq<ModeChoice>) -> Seq<TargetRequirement> {
    match ability.modal {
        None => ability.target_requirements@,
        Some(m) => if modes.len() == 0 {
            Seq::empty()
        } else {
            chosen_requirements(m.clauses@, modes[0].mode_indices@)
        },
    }
}

/// Target requirements of a cast of `ability` with the chosen `modes`.
pub fn effective_target_requirements(ability: &SpellAbilityDef, modes: &[ModeChoice]) -> (r: Vec<TargetRequirement>)
    ensures
        r@ == spec_effective_targets(*ability, modes@),
{
    match &ability.modal {
        None => {
            let mut out: Vec<TargetRequirement> = Vec::new();
            let mut k: usize = 0;
            while k < ability.target_requirements.len()
                invariant
                    k <= ability.target_requirements@.len(),
                    out@ == ability.target_requirements@.take(k as int),
                decreases ability.target_requirements@.len() - k,
            {
                out.push(ability.target_requirements[k]);
                proof {
                    assert(ability.target_requirements@.take(k + 1) =~= ability.target_requirements@.take(
                        k as int,
                    ).push(ability.target_requirements@[k as int]));
                }
                k = k + 1;
            }
            proof {
                assert(ability.target_requirements@.take(k as int) =~= ability.target_requirements@);
            }
            out
        },
        Some(modal) => {
            if modes.len() == 0 {
                return Vec::new();
            }
            let choice = &modes[0];
            let mut out: Vec<TargetRequirement> = Vec::new();
            let mut i: usize = 0;
            while i < choice.mode_indices.len()
                invariant
                    i <= choice.mode_indices@.len(),
                    out@ == chosen_requirements(modal.clauses@, choice.mode_indices@.take(i as int)),
                decreases choice.mode_indices@.len() - i,
            {
                let idx = choice.mode_indices[i];
                proof {
                    assert(choice.mode_indices@.take(i + 1).drop_last() =~= choice.mode_indices@.take(i as int));
                }
                if idx < modal.clauses.len() {
                    let reqs = &modal.clauses[idx].target_requirements;
                    let ghost before = out@;
                    let mut k: usize = 0;
                    while k < reqs.len()
                        invariant
                            k <= reqs@.len(),
                            out@ == before + reqs@.take(k as int),
                        decreases reqs@.len() - k,
                    {
                        out.push(reqs[k]);
                        proof {
                            assert(reqs@.take(k + 1) =~= reqs@.take(k as int).push(reqs@[k as int]));
                            assert(before + reqs@.take(k + 1) =~= (before + reqs@.take(k as int)).push(reqs@[k as int]));
                        }
                        k = k + 1;
                    }
                    proof {
                        assert(reqs@.take(k as int) =~= reqs@);
                    }
                } else {
                    proof {
                        assert(out@ + Seq::<TargetRequirement>::empty() =~= out@);
                    }
                }
                i = i + 1;
            }
            proof {
                assert(choice.mode_indices@.take(i as int) =~= choice.mode_indices@);
            }
            out
        },
    }
}

/// Every card the engine knows. The card with id `i` is the `i`-th one
/// registered; names are unique among registered cards.
#[derive(Debug)]
pub struct CardRegistry {
    definitions: Vec<CardDefinition>,
    interner: StringInterner,
}

impl CardRegistry {
    /// Registered cards in id order (id minus one is the position).
    pub closed spec fn defs(&self) -> Seq<CardDefinition> {
        self.definitions@
    }

    /// The interner of card names and subtypes.
    pub closed spec fn names(&self) -> StringInterner {
        self.interner
    }

    /// Ids fit a `CardId`, names are unique and interned.
    pub closed spec fn wf(&self) -> bool {
        &&& self.interner.wf()
        &&& self.definitions@.len() < u32::MAX
        &&& forall|i: int, j: int|
            0 <= i < j < self.definitions@.len() ==> #[trigger] self.definitions@[i].name
                != #[trigger] self.definitions@[j].name
        &&& forall|i: int|
            0 <= i < self.definitions@.len() ==> 1 <= #[trigger] self.definitions@[i].name
                <= self.interner.strings@.len()
    }

    /// The card with id `id`.
    pub open spec fn spec_get(&self, id: CardId) -> Option<CardDefinition> {
        if 1 <= id <= self.defs().len() {
            Some(self.defs()[id - 1])
        } else {
            None
        }
    }

    /// A card named `name` is registered.
    pub open spec fn has_name(&self, name: SmallString) -> bool {
        exists|i: int| 0 <= i < self.defs().len() && #[trigger] self.defs()[i].name == name
    }

    /// Id of the card named `name`.
    pub open spec fn spec_id_of_name(&self, name: SmallString) -> Option<CardId> {
        if self.has_name(name) {
            let i = choose|i: int| 0 <= i < self.defs().len() && #[trigger] self.defs()[i].name == name;
            Some((i + 1) as u32)
        } else {
            None
        }
    }

    /// Id of the card spelled `name`.
    pub open spec fn spec_id_of_str(&self, name: Seq<char>) -> Option<CardId> {
        match self.names().spec_lookup(name) {
            Some(h) => self.spec_id_of_name(h),
            None => None,
        }
    }

    /// The interner of a well-formed registry is well formed.
    pub proof fn lemma_names_wf(reg: CardRegistry)
        requires
            reg.wf(),
        ensures
            reg.names().wf(),
    {
    }

    /// A handle past the interned ones names no registered card.
    pub proof fn lemma_fresh_handle(reg: CardRegistry, h: SmallString)
        requires
            reg.wf(),
            h == 0 || h > reg.names().strings@.len(),
        ensures
            !reg.has_name(h),
    {
    }

    /// The card at position `i` has id `i + 1` under its name.
    pub proof fn lemma_id_of_name(reg: CardRegistry, i: int)
        requires
            reg.wf(),
            0 <= i < reg.defs().len(),
        ensures
            reg.spec_id_of_name(reg.defs()[i].name) == Some((i + 1) as u32),
    {
        let name = reg.defs()[i].name;
        assert(reg.has_name(name));
        let j = choose|j: int| 0 <= j < reg.defs().len() && #[trigger] reg.defs()[j].name == name;
        if j < i {
            assert(reg.definitions@[j].name != reg.definitions@[i].name);
        } else if i < j {
            assert(reg.definitions@[i].name != reg.definitions@[j].name);
        }
    }

    /// Interning a string changes no card's id: a newly interned handle
    /// names no registered card.
    pub proof fn lemma_intern_keeps_ids(before: CardRegistry, after: CardRegistry, name: Seq<char>)
        requires
            before.wf(),
            after.defs() == before.defs(),
            after.names().wf(),
            before.names().spec_lookup(name) is Some ==> after.names().strings@ == before.names().strings@,
            before.names().spec_lookup(name) is None ==> after.names().strings@ == before.names().strings@.push(
                after.names().strings@.last(),
            ) && after.names().strings@.last()@ == name,
        ensures
            after.wf(),
            forall|s: Seq<char>| #[trigger] after.spec_id_of_str(s) == before.spec_id_of_str(s),
    {
        assert forall|s: Seq<char>| #[trigger] after.spec_id_of_str(s) == before.spec_id_of_str(s) by {
            let b = before.names().strings@;
            let a = after.names().strings@;
            if exists|i: int| 0 <= i < b.len() && #[trigger] b[i]@ == s {
                crate::types::lemma_lookup_stable(b, a, s);
            } else if a.len() > b.len() {
                if s == name {
                    let r = after.names().spec_lookup(s);
                    if r is Some {
                        let i = choose|i: int| 0 <= i < a.len() && #[trigger] a[i]@ == s;
                        if i < b.len() {
                            assert(b[i] == a[i]);
                        }
                        assert(i == b.len());
                        assert(!before.has_name((i + 1) as u32));
                    }
                } else {
                    assert forall|i: int| 0 <= i < a.len() implies #[trigger] a[i]@ != s by {
                        if i < b.len() {
                            assert(b[i] == a[i]);
                        }
                    }
                }
            }
        }
    }

    /// Registering a card named `name` gives `name` the new id and changes
    /// the id of no other string.
    pub proof fn lemma_register_ids(before: CardRegistry, after: CardRegistry, def: CardDefinition, name: Seq<char>)
        requires
            before.wf(),
            after.wf(),
            after.defs() == before.defs().push(def),
            after.names() == before.names(),
            before.names().spec_lookup(name) == Some(def.name),
        ensures
            after.spec_id_of_str(name) == Some((before.defs().len() + 1) as u32),
            forall|s: Seq<char>| s != name ==> #[trigger] after.spec_id_of_str(s) == before.spec_id_of_str(s),
    {
        let n = before.defs().len();
        Self::lemma_id_of_name(after, n as int);
        let strs = before.names().strings@;
        let wd = choose|i: int| 0 <= i < strs.len() && #[trigger] strs[i]@ == name;
        assert(def.name == wd + 1);
        assert forall|s: Seq<char>| s != name implies #[trigger] after.spec_id_of_str(s) == before.spec_id_of_str(s) by {
            match before.names().spec_lookup(s) {
                Some(h) => {
                    let ws = choose|i: int| 0 <= i < strs.len() && #[trigger] strs[i]@ == s;
                    assert(h == ws + 1);
                    assert(h != def.name);
                    if before.has_name(h) {
                        let i = choose|i: int| 0 <= i < before.defs().len() && #[trigger] before.defs()[i].name == h;
                        Self::lemma_id_of_name(before, i);
                        assert(after.defs()[i] == before.defs()[i]);
                        Self::lemma_id_of_name(after, i);
                    } else {
                        assert forall|i: int| 0 <= i < after.defs().len() implies #[trigger] after.defs()[i].name != h by {
                            if i < n {
                                assert(after.defs()[i] == before.defs()[i]);
                            }
                        }
                    }
                },
                None => {},
            }
        }
    }

    /// An empty registry with an empty interner.
    pub fn new() -> (r: CardRegistry)
        ensures
            r.wf(),
            r.defs().len() == 0,
            r.names().strings@.len() == 0,
    {
        CardRegistry { definitions: Vec::new(), interner: StringInterner::new() }
    }

    pub fn interner(&self) -> (r: &StringInterner)
        ensures
            *r == self.names(),
            self.wf() ==> r.wf(),
    {
        &self.interner
    }

    /// The interner, for interning names and subtypes while building
    /// card definitions.
    pub fn interner_mut(&mut self) -> (r: &mut StringInterner)
        ensures
            *r == old(self).names(),
            final(self).defs() == old(self).defs(),
            final(self).names() == *final(r),
            old(self).wf() ==> r.wf(),
    {
        &mut self.interner
    }

    /// Interning keeps the registry well formed.
    pub proof fn lemma_grown_interner(before: CardRegistry, after: CardRegistry)
        requires
            before.wf(),
            after.defs() == before.defs(),
            after.names().wf(),
            after.names().strings@.len() >= before.names().strings@.len(),
        ensures
            after.wf(),
    {
    }

    /// Register a card; its id is the next one. The name must be interned
    /// and not yet taken.
    pub fn register(&mut self, definition: CardDefinition) -> (id: CardId)
        requires
            old(self).wf(),
            !old(self).has_name(definition.name),
            1 <= definition.name <= old(self).names().strings@.len(),
            old(self).defs().len() + 2 <= u32::MAX,
        ensures
            final(self).wf(),
            id == old(self).defs().len() + 1,
            final(self).defs() == old(self).defs().push(definition),
            final(self).names() == old(self).names(),
    {
        let id = (self.definitions.len() + 1) as u32;
        self.definitions.push(definition);
        proof {
            assert forall|i: int, j: int|
                0 <= i < j < self.definitions@.len() implies #[trigger] self.definitions@[i].name
                    != #[trigger] self.definitions@[j].name by {
                if j == self.definitions@.len() - 1 {
                    assert(old(self).defs()[i] == self.definitions@[i]);
                }
            }
        }
        id
    }

    /// Is `card_id` a registered id? Never for `0`.
    pub fn contains(&self, card_id: CardId) -> (b: bool)
        ensures
            b == self.spec_get(card_id) is Some,
    {
        card_id >= 1 && ((card_id - 1) as usize) < self.definitions.len()
    }

    pub fn get(&self, card_id: CardId) -> (r: Option<&CardDefinition>)
        ensures
            r is Some == self.spec_get(card_id) is Some,
            r matches Some(d) ==> *d == self.spec_get(card_id)->0,
    {
        if card_id >= 1 && ((card_id - 1) as usize) < self.definitions.len() {
            Some(&self.definitions[(card_id - 1) as usize])
        } else {
            None
        }
    }

    /// Position of the card named `name`.
    fn position_of(&self, name: SmallString) -> (r: Option<usize>)
        requires
            self.wf(),
        ensures
            r is Some == self.has_name(name),
            r matches Some(i) ==> self.spec_id_of_name(name) == Some((i + 1) as u32)
                && i < self.defs().len() && self.defs()[i as int].name == name,
    {
        let mut i: usize = 0;
        while i < self.definitions.len()
            invariant
                self.wf(),
                i <= self.definitions@.len(),
                forall|k: int| 0 <= k < i ==> self.definitions@[k].name != name,
            decreases self.definitions@.len() - i,
        {
            if self.definitions[i].name == name {
                proof {
                    assert(self.defs()[i as int].name == name);
                    let j = choose|j: int| 0 <= j < self.defs().len() && #[trigger] self.defs()[j].name == name;
                    if j != i {
                        if j < i {
                        } else {
                            assert(self.definitions@[i as int].name != self.definitions@[j].name);
                        }
                    }
                }
                return Some(i);
            }
            i = i + 1;
        }
        None
    }

    /// The card named `name` (an interned handle).
    pub fn get_by_name(&self, name: SmallString) -> (r: Option<&CardDefinition>)
        requires
            self.wf(),
        ensures
            r is Some == self.spec_id_of_name(name) is Some,
            r matches Some(d) ==> *d == self.spec_get(self.spec_id_of_name(name)->0)->0,
    {
        match self.position_of(name) {
            Some(i) => Some(&self.definitions[i]),
            None => None,
        }
    }

    /// The card spelled `name`.
    pub fn get_by_str(&self, name: &str) -> (r: Option<&CardDefinition>)
        requires
            self.wf(),
        ensures
            r is Some == self.spec_id_of_str(name@) is Some,
            r matches Some(d) ==> *d == self.spec_get(self.spec_id_of_str(name@)->0)->0,
    {
        match self.interner.lookup(name) {
            Some(h) => self.get_by_name(h),
            None => None,
        }
    }

    /// Id of the card spelled `name`.
    pub fn card_id_by_name(&self, name: &str) -> (r: Option<CardId>)
        requires
            self.wf(),
        ensures
            r == self.spec_id_of_str(name@),
    {
        match self.interner.lookup(name) {
            Some(h) => match self.position_of(h) {
                Some(i) => Some((i + 1) as u32),
                None => None,
            },
            None => None,
        }
    }

    /// Registered ids with their cards, in id order.
    pub fn iter(&self) -> (it: std::vec::IntoIter<(CardId, &CardDefinition)>)
        requires
            self.wf(),
        ensures
            vstd::std_specs::iter::IteratorSpec::remaining(&it).len() == self.defs().len(),
            forall|k: int|
                0 <= k < self.defs().len() ==> {
                    let e = #[trigger] vstd::std_specs::iter::IteratorSpec::remaining(&it)[k];
                    e.0 == k + 1 && *e.1 == self.defs()[k]
                },
    {
        let mut v: Vec<(CardId, &CardDefinition)> = Vec::new();
        let mut i: usize = 0;
        while i < self.definitions.len()
            invariant
                self.wf(),
                i <= self.definitions@.len(),
                v@.len() == i,
                forall|k: int| 0 <= k < i ==> (#[trigger] v@[k]).0 == k + 1 && *v@[k].1 == self.definitions@[k],
            decreases self.definitions@.len() - i,
        {
            v.push(((i + 1) as u32, &self.definitions[i]));
            i = i + 1;
        }
        let it = v.into_iter();
        proof {
            vstd::std_specs::vec::axiom_spec_into_iter(v);
        }
        it
    }

    pub fn len(&self) -> (n: usize)
        ensures
            n == self.defs().len(),
    {
        self.definitions.len()
    }

    pub fn is_empty(&self) -> (b: bool)
        ensures
            b == (self.defs().len() == 0),
    {
        self.definitions.len() == 0
    }
}

/// A deck list expanded: each entry's card id repeated `count` times, in
/// list order.
pub open spec fn spec_deck(registry: CardRegistry, entries: Seq<(&str, u32)>) -> Seq<CardId>
    decreases entries.len(),
{
    if entries.len() == 0 {
        Seq::empty()
    } else {
        let (name, count) = entries.last();
        let id = registry.spec_id_of_str(name@)->0;
        spec_deck(registry, entries.drop_last()) + Seq::new(count as nat, |_k: int| id)
    }
}

/// Total number of cards a deck list asks for: the sum of its counts.
pub open spec fn total_count(entries: Seq<(&str, u32)>) -> nat
    decreases entries.len(),
{
    if entries.len() == 0 {
        0
    } else {
        total_count(entries.drop_last()) + entries.last().1 as nat
    }
}

/// A deck has as many cards as its list's counts add up to.
pub proof fn law_deck_size_is_total_count(registry: CardRegistry, entries: Seq<(&str, u32)>)
    ensures
        spec_deck(registry, entries).len() == total_count(entries),
    decreases entries.len(),
{
    if entries.len() > 0 {
        law_deck_size_is_total_count(registry, entries.drop_last());
    }
}

/// Entry `k` of a deck list fills the `count` places after the cards of
/// the entries before it, each with the id of that entry's card.
pub proof fn law_deck_entry_copies(registry: CardRegistry, entries: Seq<(&str, u32)>, k: int, c: int)
    requires
        0 <= k < entries.len(),
        0 <= c < entries[k].1,
    ensures
        total_count(entries.take(k)) + c < spec_deck(registry, entries).len(),
        spec_deck(registry, entries)[total_count(entries.take(k)) + c] == registry.spec_id_of_str(entries[k].0@)->0,
    decreases entries.len(),
{
    let n = entries.len() as int;
    let front = entries.drop_last();
    law_deck_size_is_total_count(registry, entries);
    law_deck_size_is_total_count(registry, front);
    if k == n - 1 {
        assert(entries.take(k) =~= front);
    } else {
        law_deck_entry_copies(registry, front, k, c);
        assert(front.take(k) =~= entries.take(k));
        assert(front[k] == entries[k]);
    }
}

/// The card ids of a deck list of `(name, count)` entries, in list order.
/// Every name must be registered.
pub fn build_deck(entries: &[(&str, u32)], registry: &CardRegistry) -> (deck: Vec<CardId>)
    requires
        registry.wf(),
        forall|k: int| 0 <= k < entries@.len() ==> (#[trigger] registry.spec_id_of_str(entries@[k].0@)) is Some,
    ensures
        deck@ == spec_deck(*registry, entries@),
{
    let mut deck: Vec<CardId> = Vec::new();
    let mut i: usize = 0;
    while i < entries.len()
        invariant
            registry.wf(),
            i <= entries@.len(),
            forall|k: int| 0 <= k < entries@.len() ==> (#[trigger] registry.spec_id_of_str(entries@[k].0@)) is Some,
            deck@ == spec_deck(*registry, entries@.take(i as int)),
        decreases entries@.len() - i,
    {
        let (name, count) = entries[i];
        let id = match registry.card_id_by_name(name) {
            Some(id) => id,
            None => {
                proof {
                    assert(registry.spec_id_of_str(entries@[i as int].0@) is Some);
                }
                return deck;
            },
        };
        proof {
            assert(entries@.take(i + 1).drop_last() =~= entries@.take(i as int));
        }
        let ghost before = deck@;
        let mut c: u32 = 0;
        while c < count
            invariant
                c <= count,
                deck@ == before + Seq::new(c as nat, |_k: int| id),
            decreases count - c,
        {
            deck.push(id);
            proof {
                assert(before + Seq::new((c + 1) as nat, |_k: int| id) =~= (before + Seq::new(
                    c as nat,
                    |_k: int| id,
                )).push(id));
            }
            c = c + 1;
        }
        i = i + 1;
    }
    proof {
        assert(entries@.take(i as int) =~= entries@);
    }
    deck
}

} // verus!
