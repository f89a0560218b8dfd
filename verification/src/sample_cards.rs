//! Four sample cards — Mountain, Forest, Grizzly Bears and Lightning
//! Bolt — enough to exercise mana production, creature combat and a
//! targeted removal spell.

use vstd::prelude::*;
use crate::mana::{ManaCost, ManaCostComponent};
use crate::objects::Characteristics;
use crate::registry::{ActivatedAbilityDef, ActivationCost, CardDefinition, CardRegistry, SpellAbilityDef};
use crate::targets::{TargetFilter, TargetRequirement};
use crate::types::{
    CardId, Color, ColorSet, PtValue, SmallString, SubtypeSet, SupertypeSet, TypeLine,
};

verus! {

/// `d` is a basic land named after its one land subtype, with the single
/// mana ability `{T}: <text>`.
pub open spec fn spec_basic_land(d: CardDefinition, text: Seq<char>) -> bool {
    let c = d.base_characteristics;
    &&& c.name == d.name
    &&& c.mana_cost is None
    &&& c.colors.0 == 0
    &&& c.types.0 == TypeLine::LAND
    &&& c.subtypes.0@ == seq![d.name]
    &&& c.supertypes.0 == SupertypeSet::BASIC
    &&& c.power is None && c.toughness is None
    &&& d.spell_ability is None
    &&& d.enters_with@.len() == 0
    &&& d.activated_abilities@.len() == 1
    &&& d.activated_abilities@[0].text@ == text
    &&& d.activated_abilities@[0].is_mana_ability
    &&& !d.activated_abilities@[0].is_loyalty_ability
    &&& d.activated_abilities@[0].target_requirements@.len() == 0
    &&& d.activated_abilities@[0].cost.tap
    &&& d.activated_abilities@[0].cost.mana_cost.components@.len() == 0
    &&& !d.activated_abilities@[0].cost.sacrifice
    &&& d.activated_abilities@[0].cost.life == 0
}

/// Intern `s`; no card's id changes.
fn intern_name(registry: &mut CardRegistry, s: &str) -> (h: SmallString)
    requires
        old(registry).wf(),
        old(registry).names().strings@.len() + 2 < u32::MAX,
    ensures
        final(registry).wf(),
        final(registry).defs() == old(registry).defs(),
        final(registry).names().spec_lookup(s@) == Some(h),
        1 <= h <= final(registry).names().strings@.len(),
        final(registry).names().strings@.len() <= old(registry).names().strings@.len() + 1,
        forall|t: Seq<char>| #[trigger] final(registry).spec_id_of_str(t) == old(registry).spec_id_of_str(t),
        forall|t: Seq<char>|
            old(registry).names().spec_lookup(t) is Some ==> #[trigger] final(registry).names().spec_lookup(t)
                == old(registry).names().spec_lookup(t),
{
    let ghost before = *registry;
    let h = registry.interner_mut().intern(s);
    proof {
        CardRegistry::lemma_intern_keeps_ids(before, *registry, s@);
        let strs = registry.names().strings@;
        let i = choose|i: int| 0 <= i < strs.len() && #[trigger] strs[i]@ == s@;
        assert forall|t: Seq<char>|
            before.names().spec_lookup(t) is Some implies #[trigger] registry.names().spec_lookup(t)
                == before.names().spec_lookup(t) by {
            let b = before.names().strings@;
            let w = choose|i: int| 0 <= i < b.len() && #[trigger] b[i]@ == t;
            crate::types::lemma_lookup_stable(b, strs, t);
        }
    }
    h
}

/// Register `def`, the card spelled `s`.
fn register_as(registry: &mut CardRegistry, def: CardDefinition, s: &str) -> (id: CardId)
    requires
        old(registry).wf(),
        old(registry).names().spec_lookup(s@) == Some(def.name),
        old(registry).spec_id_of_str(s@) is None,
        old(registry).defs().len() + 2 <= u32::MAX,
    ensures
        final(registry).wf(),
        id == old(registry).defs().len() + 1,
        final(registry).defs() == old(registry).defs().push(def),
        final(registry).names() == old(registry).names(),
        final(registry).spec_id_of_str(s@) == Some(id),
        forall|t: Seq<char>| t != s@ ==> #[trigger] final(registry).spec_id_of_str(t) == old(registry).spec_id_of_str(t),
{
    let ghost before = *registry;
    proof {
        CardRegistry::lemma_names_wf(*registry);
        let strs = registry.names().strings@;
        assert(exists|i: int| 0 <= i < strs.len() && #[trigger] strs[i]@ == s@);
        let i = choose|i: int| 0 <= i < strs.len() && #[trigger] strs[i]@ == s@;
        assert(def.name == i + 1);
        assert(registry.spec_id_of_name(def.name) is None);
    }
    let id = registry.register(def);
    proof {
        CardRegistry::lemma_register_ids(before, *registry, def, s@);
    }
    id
}

/// A basic land card named `name` (also its subtype) tapping for `text`.
fn basic_land(name: SmallString, text: &str) -> (d: CardDefinition)
    ensures
        d.name == name,
        spec_basic_land(d, text@),
{
    let mut subtypes = SubtypeSet::new();
    subtypes.insert(name);
    let chars = Characteristics {
        name,
        mana_cost: None,
        colors: ColorSet::new(),
        types: TypeLine::of(TypeLine::LAND),
        subtypes,
        supertypes: SupertypeSet(SupertypeSet::BASIC),
        power: None,
        toughness: None,
        loyalty: None,
        abilities_text: Vec::new(),
        keywords: Vec::new(),
        is_aura: false,
        is_fortification: false,
    };
    proof {
        assert(chars.subtypes.0@ =~= seq![name]);
    }
    CardDefinition::new(name, chars).with_activated_ability(
        ActivatedAbilityDef {
            text: text.to_owned(),
            cost: ActivationCost::tap_only(),
            target_requirements: Vec::new(),
            is_mana_ability: true,
            is_loyalty_ability: false,
        },
    )
}

/// Register Mountain: a basic land with `{T}: Add {R}.`
pub fn register_mountain(registry: &mut CardRegistry) -> (id: CardId)
    requires
        old(registry).wf(),
        old(registry).spec_id_of_str("Mountain"@) is None,
        old(registry).defs().len() + 2 <= u32::MAX,
        old(registry).names().strings@.len() + 2 < u32::MAX,
    ensures
        final(registry).wf(),
        id == old(registry).defs().len() + 1,
        final(registry).defs().drop_last() == old(registry).defs(),
        spec_basic_land(final(registry).defs().last(), "{T}: Add {R}."@),
        final(registry).spec_id_of_str("Mountain"@) == Some(id),
        forall|t: Seq<char>| t != "Mountain"@ ==> #[trigger] final(registry).spec_id_of_str(t) == old(registry).spec_id_of_str(t),
        final(registry).names().strings@.len() <= old(registry).names().strings@.len() + 1,
{
    let name = intern_name(registry, "Mountain");
    let def = basic_land(name, "{T}: Add {R}.");
    let id = register_as(registry, def, "Mountain");
    proof {
        assert(registry.defs().drop_last() =~= old(registry).defs());
    }
    id
}

/// Register Forest: a basic land with `{T}: Add {G}.`
pub fn register_forest(registry: &mut CardRegistry) -> (id: CardId)
    requires
        old(registry).wf(),
        old(registry).spec_id_of_str("Forest"@) is None,
        old(registry).defs().len() + 2 <= u32::MAX,
        old(registry).names().strings@.len() + 2 < u32::MAX,
    ensures
        final(registry).wf(),
        id == old(registry).defs().len() + 1,
        final(registry).defs().drop_last() == old(registry).defs(),
        spec_basic_land(final(registry).defs().last(), "{T}: Add {G}."@),
        final(registry).spec_id_of_str("Forest"@) == Some(id),
        forall|t: Seq<char>| t != "Forest"@ ==> #[trigger] final(registry).spec_id_of_str(t) == old(registry).spec_id_of_str(t),
        final(registry).names().strings@.len() <= old(registry).names().strings@.len() + 1,
{
    let name = intern_name(registry, "Forest");
    let def = basic_land(name, "{T}: Add {G}.");
    let id = register_as(registry, def, "Forest");
    proof {
        assert(registry.defs().drop_last() =~= old(registry).defs());
    }
    id
}

/// `d` is Grizzly Bears: a vanilla 2/2 green Bear creature costing
/// `{1}{G}`.
pub open spec fn spec_grizzly_bears(d: CardDefinition, bear: SmallString) -> bool {
    let c = d.base_characteristics;
    &&& c.name == d.name
    &&& c.mana_cost matches Some(m) && m.components@ == seq![
        ManaCostComponent::Generic(1),
        ManaCostComponent::Colored(Color::Green),
    ]
    &&& c.colors.0 == 16
    &&& c.types.0 == TypeLine::CREATURE
    &&& c.subtypes.0@ == seq![bear]
    &&& c.supertypes.0 == 0
    &&& c.power == Some(PtValue::Fixed(2))
    &&& c.toughness == Some(PtValue::Fixed(2))
    &&& d.spell_ability is None
    &&& d.activated_abilities@.len() == 0
    &&& d.enters_with@.len() == 0
}

/// Register Grizzly Bears: a vanilla 2/2 for `{1}{G}`.
pub fn register_grizzly_bears(registry: &mut CardRegistry) -> (id: CardId)
    requires
        old(registry).wf(),
        old(registry).spec_id_of_str("Grizzly Bears"@) is None,
        old(registry).defs().len() + 2 <= u32::MAX,
        old(registry).names().strings@.len() + 3 < u32::MAX,
    ensures
        final(registry).wf(),
        id == old(registry).defs().len() + 1,
        final(registry).defs().drop_last() == old(registry).defs(),
        spec_grizzly_bears(final(registry).defs().last(), final(registry).names().spec_lookup("Bear"@)->0),
        final(registry).spec_id_of_str("Grizzly Bears"@) == Some(id),
        forall|t: Seq<char>| t != "Grizzly Bears"@ ==> #[trigger] final(registry).spec_id_of_str(t) == old(registry).spec_id_of_str(t),
        final(registry).names().strings@.len() <= old(registry).names().strings@.len() + 2,
{
    let name = intern_name(registry, "Grizzly Bears");
    let ghost mid = *registry;
    let bear = intern_name(registry, "Bear");
    proof {
        assert(mid.names().spec_lookup("Grizzly Bears"@) is Some);
    }
    let mut subtypes = SubtypeSet::new();
    subtypes.insert(bear);
    let chars = Characteristics {
        name,
        mana_cost: Some(ManaCost {
            components: vec![ManaCostComponent::Generic(1), ManaCostComponent::Colored(Color::Green)],
        }),
        colors: ColorSet::green(),
        types: TypeLine::of(TypeLine::CREATURE),
        subtypes,
        supertypes: SupertypeSet::new(),
        power: Some(PtValue::Fixed(2)),
        toughness: Some(PtValue::Fixed(2)),
        loyalty: None,
        abilities_text: Vec::new(),
        keywords: Vec::new(),
        is_aura: false,
        is_fortification: false,
    };
    proof {
        assert(chars.subtypes.0@ =~= seq![bear]);
    }
    let def = CardDefinition::new(name, chars);
    let id = register_as(registry, def, "Grizzly Bears");
    proof {
        assert(registry.defs().drop_last() =~= old(registry).defs());
    }
    id
}

/// `d` is Lightning Bolt: an `{R}` red instant with one "any target"
/// target.
pub open spec fn spec_lightning_bolt(d: CardDefinition) -> bool {
    let c = d.base_characteristics;
    &&& c.name == d.name
    &&& c.mana_cost matches Some(m) && m.components@ == seq![ManaCostComponent::Colored(Color::Red)]
    &&& c.colors.0 == 8
    &&& c.types.0 == TypeLine::INSTANT
    &&& c.power is None && c.toughness is None
    &&& d.spell_ability matches Some(sa) && {
        &&& sa.text@ == "Lightning Bolt deals 3 damage to any target."@
        &&& sa.target_requirements@ == seq![
            TargetRequirement { filter: TargetFilter::Any, min_targets: 1, max_targets: 1 },
        ]
        &&& sa.modal is None
    }
    &&& d.activated_abilities@.len() == 0
    &&& d.enters_with@.len() == 0
}

/// Register Lightning Bolt: `{R}` instant, "Lightning Bolt deals 3
/// damage to any target."
pub fn register_lightning_bolt(registry: &mut CardRegistry) -> (id: CardId)
    requires
        old(registry).wf(),
        old(registry).spec_id_of_str("Lightning Bolt"@) is None,
        old(registry).defs().len() + 2 <= u32::MAX,
        old(registry).names().strings@.len() + 2 < u32::MAX,
    ensures
        final(registry).wf(),
        id == old(registry).defs().len() + 1,
        final(registry).defs().drop_last() == old(registry).defs(),
        spec_lightning_bolt(final(registry).defs().last()),
        final(registry).spec_id_of_str("Lightning Bolt"@) == Some(id),
        forall|t: Seq<char>| t != "Lightning Bolt"@ ==> #[trigger] final(registry).spec_id_of_str(t) == old(registry).spec_id_of_str(t),
        final(registry).names().strings@.len() <= old(registry).names().strings@.len() + 1,
{
    let name = intern_name(registry, "Lightning Bolt");
    let chars = Characteristics {
        name,
        mana_cost: Some(ManaCost { components: vec![ManaCostComponent::Colored(Color::Red)] }),
        colors: ColorSet::red(),
        types: TypeLine::of(TypeLine::INSTANT),
        subtypes: SubtypeSet::new(),
        supertypes: SupertypeSet::new(),
        power: None,
        toughness: None,
        loyalty: None,
        abilities_text: Vec::new(),
        keywords: Vec::new(),
        is_aura: false,
        is_fortification: false,
    };
    let def = CardDefinition::new(name, chars).with_spell_ability(
        SpellAbilityDef {
            text: "Lightning Bolt deals 3 damage to any target.".to_owned(),
            target_requirements: vec![TargetRequirement::any_target()],
            modal: None,
        },
    );
    proof {
        assert(def.spell_ability is Some);
        let sa = def.spell_ability->0;
        assert(sa.text@ == "Lightning Bolt deals 3 damage to any target."@);
        assert(sa.target_requirements@ == seq![
            TargetRequirement { filter: TargetFilter::Any, min_targets: 1, max_targets: 1 },
        ]);
        assert(def.base_characteristics.mana_cost->0.components@ == seq![ManaCostComponent::Colored(Color::Red)]);
    }
    let id = register_as(registry, def, "Lightning Bolt");
    proof {
        assert(registry.defs().drop_last() =~= old(registry).defs());
    }
    id
}

/// Ids of the four sample cards.
#[derive(Clone, Copy, Debug)]
pub struct Phase1Ids {
    pub mountain: CardId,
    pub forest: CardId,
    pub grizzly_bears: CardId,
    pub lightning_bolt: CardId,
}

/// Register the four sample cards, in the order Mountain, Forest,
/// Grizzly Bears, Lightning Bolt.
pub fn register_all_phase1_samples(registry: &mut CardRegistry) -> (ids: Phase1Ids)
    requires
        old(registry).wf(),
        old(registry).spec_id_of_str("Mountain"@) is None,
        old(registry).spec_id_of_str("Forest"@) is None,
        old(registry).spec_id_of_str("Grizzly Bears"@) is None,
        old(registry).spec_id_of_str("Lightning Bolt"@) is None,
        old(registry).defs().len() + 5 <= u32::MAX,
        old(registry).names().strings@.len() + 8 < u32::MAX,
    ensures
        final(registry).wf(),
        final(registry).defs().len() == old(registry).defs().len() + 4,
        final(registry).defs().take(old(registry).defs().len() as int) == old(registry).defs(),
        ids.mountain == old(registry).defs().len() + 1,
        ids.forest == old(registry).defs().len() + 2,
        ids.grizzly_bears == old(registry).defs().len() + 3,
        ids.lightning_bolt == old(registry).defs().len() + 4,
        final(registry).spec_id_of_str("Mountain"@) == Some(ids.mountain),
        final(registry).spec_id_of_str("Forest"@) == Some(ids.forest),
        final(registry).spec_id_of_str("Grizzly Bears"@) == Some(ids.grizzly_bears),
        final(registry).spec_id_of_str("Lightning Bolt"@) == Some(ids.lightning_bolt),
        spec_basic_land(final(registry).defs()[ids.mountain - 1], "{T}: Add {R}."@),
        spec_basic_land(final(registry).defs()[ids.forest - 1], "{T}: Add {G}."@),
        spec_lightning_bolt(final(registry).defs()[ids.lightning_bolt - 1]),
{
    proof {
        reveal_strlit("Mountain");
        reveal_strlit("Forest");
        reveal_strlit("Grizzly Bears");
        reveal_strlit("Lightning Bolt");
        assert("Forest"@.len() != "Mountain"@.len());
        assert("Grizzly Bears"@.len() != "Mountain"@.len());
        assert("Grizzly Bears"@.len() != "Forest"@.len());
        assert("Lightning Bolt"@.len() != "Mountain"@.len());
        assert("Lightning Bolt"@.len() != "Forest"@.len());
        assert("Lightning Bolt"@.len() != "Grizzly Bears"@.len());
    }
    let ghost r0 = *registry;
    let mountain = register_mountain(registry);
    let ghost r1 = *registry;
    let forest = register_forest(registry);
    let ghost r2 = *registry;
    let grizzly_bears = register_grizzly_bears(registry);
    let ghost r3 = *registry;
    let lightning_bolt = register_lightning_bolt(registry);
    proof {
        let n: int = r0.defs().len() as int;
        assert(r1.defs() == r0.defs().push(r1.defs().last()));
        assert(r2.defs() == r1.defs().push(r2.defs().last()));
        assert(r3.defs() == r2.defs().push(r3.defs().last()));
        assert(registry.defs() == r3.defs().push(registry.defs().last()));
        assert(registry.defs().take(n) =~= r0.defs());
        assert(registry.defs()[n] == r1.defs().last());
        assert(registry.defs()[n + 1] == r2.defs().last());
        assert(registry.defs()[n + 3] == registry.defs().last());
    }
    Phase1Ids { mountain, forest, grizzly_bears, lightning_bolt }
}

} // verus!
