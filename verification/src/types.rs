//! Core value types: colors, type lines, supertypes, subtypes, counters,
//! power/toughness values and the string interner.

use vstd::prelude::*;

verus! {

/// Index of a player (seat) in the game, starting at 0.
pub type PlayerId = u8;

/// Key of a card definition in the card registry. `0` means "unregistered".
pub type CardId = u32;

/// Key of an ability text entry.
pub type AbilityId = u32;

// =============================================================================
// Colors
// =============================================================================

/// One of the five colors of Magic.
#[derive(Clone, Copy, Debug, PartialEq, Eq, Structural, Hash, PartialOrd, Ord)]
pub enum Color {
    White,
    Blue,
    Black,
    Red,
    Green,
}

/// The color of a single unit of mana; `Colorless` is the sixth kind.
#[derive(Clone, Copy, Debug, PartialEq, Eq, Structural, Hash, PartialOrd, Ord)]
pub enum ManaColor {
    White,
    Blue,
    Black,
    Red,
    Green,
    Colorless,
}

pub open spec fn spec_color_to_mana(c: Color) -> ManaColor {
    match c {
        Color::White => ManaColor::White,
        Color::Blue => ManaColor::Blue,
        Color::Black => ManaColor::Black,
        Color::Red => ManaColor::Red,
        Color::Green => ManaColor::Green,
    }
}

pub open spec fn spec_color_letter(c: Color) -> char {
    match c {
        Color::White => 'W',
        Color::Blue => 'U',
        Color::Black => 'B',
        Color::Red => 'R',
        Color::Green => 'G',
    }
}

pub open spec fn spec_color_bit(c: Color) -> u8 {
    match c {
        Color::White => 1,
        Color::Blue => 2,
        Color::Black => 4,
        Color::Red => 8,
        Color::Green => 16,
    }
}

impl Color {
    /// The mana color of the same hue.
    pub fn to_mana(self) -> (m: ManaColor)
        ensures
            m == spec_color_to_mana(self),
    {
        match self {
            Color::White => ManaColor::White,
            Color::Blue => ManaColor::Blue,
            Color::Black => ManaColor::Black,
            Color::Red => ManaColor::Red,
            Color::Green => ManaColor::Green,
        }
    }

    /// The one-letter mana symbol of the color (`W`, `U`, `B`, `R`, `G`).
    pub fn letter(self) -> (ch: char)
        ensures
            ch == spec_color_letter(self),
    {
        match self {
            Color::White => 'W',
            Color::Blue => 'U',
            Color::Black => 'B',
            Color::Red => 'R',
            Color::Green => 'G',
        }
    }

    /// The bit of this color inside a [`ColorSet`].
    pub fn bit(self) -> (b: u8)
        ensures
            b == spec_color_bit(self),
    {
        match self {
            Color::White => 1,
            Color::Blue => 2,
            Color::Black => 4,
            Color::Red => 8,
            Color::Green => 16,
        }
    }
}

/// A set of colors, one bit per color (white = 1, blue = 2, black = 4,
/// red = 8, green = 16).
#[derive(Clone, Copy, Debug, PartialEq, Eq, Structural, Hash, Default)]
pub struct ColorSet(pub u8);

pub open spec fn spec_colorset_has(s: ColorSet, c: Color) -> bool {
    s.0 & spec_color_bit(c) != 0
}

pub open spec fn bit_count(b: bool) -> nat {
    if b { 1 } else { 0 }
}

impl ColorSet {
    pub open spec fn has(self, c: Color) -> bool {
        spec_colorset_has(self, c)
    }

    pub open spec fn spec_len(self) -> nat {
        bit_count(self.0 & 1 != 0) + bit_count(self.0 & 2 != 0) + bit_count(self.0 & 4 != 0)
            + bit_count(self.0 & 8 != 0) + bit_count(self.0 & 16 != 0)
    }

    /// The empty set (colorless).
    pub fn new() -> (s: ColorSet)
        ensures
            s.0 == 0,
    {
        ColorSet(0)
    }

    /// The one-color set.
    pub fn from_color(c: Color) -> (s: ColorSet)
        ensures
            s.0 == spec_color_bit(c),
    {
        ColorSet(c.bit())
    }

    pub fn white() -> (s: ColorSet)
        ensures
            s.0 == 1,
    {
        ColorSet(1)
    }

    pub fn blue() -> (s: ColorSet)
        ensures
            s.0 == 2,
    {
        ColorSet(2)
    }

    pub fn black() -> (s: ColorSet)
        ensures
            s.0 == 4,
    {
        ColorSet(4)
    }

    pub fn red() -> (s: ColorSet)
        ensures
            s.0 == 8,
    {
        ColorSet(8)
    }

    pub fn green() -> (s: ColorSet)
        ensures
            s.0 == 16,
    {
        ColorSet(16)
    }

    /// Set union.
    pub fn union(self, other: ColorSet) -> (s: ColorSet)
        ensures
            s.0 == self.0 | other.0,
    {
        ColorSet(self.0 | other.0)
    }

    /// Does the set share at least one color with `other`?
    pub fn intersects(self, other: ColorSet) -> (b: bool)
        ensures
            b == (self.0 & other.0 != 0),
    {
        self.0 & other.0 != 0
    }

    pub fn contains(self, c: Color) -> (b: bool)
        ensures
            b == self.has(c),
    {
        self.0 & c.bit() != 0
    }

    /// No color at all.
    pub fn is_colorless(self) -> (b: bool)
        ensures
            b == (self.0 & 31 == 0),
    {
        self.0 & 31 == 0
    }

    /// Number of colors in the set.
    pub fn len(self) -> (n: usize)
        ensures
            n == self.spec_len(),
    {
        let mut n: usize = 0;
        if self.0 & 1 != 0 {
            n = n + 1;
        }
        if self.0 & 2 != 0 {
            n = n + 1;
        }
        if self.0 & 4 != 0 {
            n = n + 1;
        }
        if self.0 & 8 != 0 {
            n = n + 1;
        }
        if self.0 & 16 != 0 {
            n = n + 1;
        }
        n
    }
}

// =============================================================================
// Type line
// =============================================================================

/// Card types of an object, one bit per type.
#[derive(Clone, Copy, Debug, PartialEq, Eq, Structural, Hash, Default)]
pub struct TypeLine(pub u16);

impl TypeLine {
    pub const ARTIFACT: u16 = 1;
    pub const CREATURE: u16 = 2;
    pub const ENCHANTMENT: u16 = 4;
    pub const INSTANT: u16 = 8;
    pub const LAND: u16 = 16;
    pub const PLANESWALKER: u16 = 32;
    pub const SORCERY: u16 = 64;
    pub const BATTLE: u16 = 128;
    pub const KINDRED: u16 = 256;

    /// Bits of the permanent types (artifact, creature, enchantment, land,
    /// planeswalker, battle).
    pub const PERMANENT_TYPES: u16 = 183;

    pub open spec fn has_bits(self, bits: u16) -> bool {
        self.0 & bits != 0
    }

    pub fn of(bits: u16) -> (t: TypeLine)
        ensures
            t.0 == bits,
    {
        TypeLine(bits)
    }

    pub fn is_artifact(self) -> (b: bool)
        ensures
            b == self.has_bits(1),
    {
        self.0 & 1 != 0
    }

    pub fn is_creature(self) -> (b: bool)
        ensures
            b == self.has_bits(2),
    {
        self.0 & 2 != 0
    }

    pub fn is_enchantment(self) -> (b: bool)
        ensures
            b == self.has_bits(4),
    {
        self.0 & 4 != 0
    }

    pub fn is_instant(self) -> (b: bool)
        ensures
            b == self.has_bits(8),
    {
        self.0 & 8 != 0
    }

    pub fn is_land(self) -> (b: bool)
        ensures
            b == self.has_bits(16),
    {
        self.0 & 16 != 0
    }

    pub fn is_planeswalker(self) -> (b: bool)
        ensures
            b == self.has_bits(32),
    {
        self.0 & 32 != 0
    }

    pub fn is_sorcery(self) -> (b: bool)
        ensures
            b == self.has_bits(64),
    {
        self.0 & 64 != 0
    }

    pub fn is_battle(self) -> (b: bool)
        ensures
            b == self.has_bits(128),
    {
        self.0 & 128 != 0
    }

    /// Instant or sorcery: a card that is only ever a spell.
    pub fn is_spell(self) -> (b: bool)
        ensures
            b == self.has_bits(72),
    {
        self.0 & 72 != 0
    }

    /// Has at least one permanent type.
    pub fn is_permanent(self) -> (b: bool)
        ensures
            b == self.has_bits(183),
    {
        self.0 & 183 != 0
    }

    /// Shares at least one type with `other`.
    pub fn intersects(self, other: TypeLine) -> (b: bool)
        ensures
            b == (self.0 & other.0 != 0),
    {
        self.0 & other.0 != 0
    }
}

impl From<u16> for TypeLine {
    fn from(bits: u16) -> (t: TypeLine) {
        TypeLine(bits)
    }
}

impl vstd::std_specs::convert::FromSpecImpl<u16> for TypeLine {
    open spec fn obeys_from_spec() -> bool {
        true
    }

    open spec fn from_spec(bits: u16) -> TypeLine {
        TypeLine(bits)
    }
}

// =============================================================================
// Supertypes
// =============================================================================

/// Supertypes, one bit each.
#[derive(Clone, Copy, Debug, PartialEq, Eq, Structural, Hash, Default)]
pub struct SupertypeSet(pub u8);

impl SupertypeSet {
    pub const BASIC: u8 = 1;
    pub const LEGENDARY: u8 = 2;
    pub const SNOW: u8 = 4;
    pub const WORLD: u8 = 8;

    pub fn new() -> (s: SupertypeSet)
        ensures
            s.0 == 0,
    {
        SupertypeSet(0)
    }

    /// This set plus the supertype bits `bits`.
    pub fn with(self, bits: u8) -> (s: SupertypeSet)
        ensures
            s.0 == self.0 | bits,
    {
        SupertypeSet(self.0 | bits)
    }

    pub fn is_basic(self) -> (b: bool)
        ensures
            b == (self.0 & 1 != 0),
    {
        self.0 & 1 != 0
    }

    pub fn is_legendary(self) -> (b: bool)
        ensures
            b == (self.0 & 2 != 0),
    {
        self.0 & 2 != 0
    }

    pub fn is_snow(self) -> (b: bool)
        ensures
            b == (self.0 & 4 != 0),
    {
        self.0 & 4 != 0
    }
}

// =============================================================================
// Interned strings
// =============================================================================

/// An interned string handle. Handle `0` is the empty/unnamed string; the
/// interner hands out handles from 1 upwards.
pub type SmallString = u32;

/// Maps strings to small handles and back. Handle `i + 1` names
/// `strings[i]`; every string appears at most once.
#[derive(Clone, Debug, Default)]
pub struct StringInterner {
    pub strings: Vec<String>,
}

pub open spec fn seq_strings_view(v: Seq<String>) -> Seq<Seq<char>> {
    v.map_values(|s: String| s@)
}

/// Handle of `name` among `strings`: one more than its position.
pub open spec fn lookup_in(strings: Seq<String>, name: Seq<char>) -> Option<SmallString> {
    if exists|i: int| 0 <= i < strings.len() && #[trigger] strings[i]@ == name {
        let i = choose|i: int| 0 <= i < strings.len() && #[trigger] strings[i]@ == name;
        Some((i + 1) as u32)
    } else {
        None
    }
}

impl StringInterner {
    /// Every string is interned once.
    pub open spec fn wf(&self) -> bool {
        &&& self.strings@.len() < u32::MAX
        &&& forall|i: int, j: int|
            0 <= i < j < self.strings@.len() ==> #[trigger] self.strings@[i]@ != #[trigger] self.strings@[j]@
    }

    /// Handle of `name`, if interned.
    pub open spec fn spec_lookup(&self, name: Seq<char>) -> Option<SmallString> {
        lookup_in(self.strings@, name)
    }

    pub fn new() -> (r: StringInterner)
        ensures
            r.strings@.len() == 0,
            r.wf(),
    {
        StringInterner { strings: Vec::new() }
    }

    pub fn len(&self) -> (n: usize)
        ensures
            n == self.strings@.len(),
    {
        self.strings.len()
    }

    /// Handle of `name` if it was interned before.
    pub fn lookup(&self, name: &str) -> (r: Option<SmallString>)
        requires
            self.wf(),
        ensures
            r == self.spec_lookup(name@),
            r matches Some(h) ==> 1 <= h <= self.strings@.len() && self.strings@[h - 1]@ == name@,
    {
        let owned = name.to_owned();
        let mut i: usize = 0;
        while i < self.strings.len()
            invariant
                self.wf(),
                i <= self.strings@.len(),
                owned@ == name@,
                forall|k: int| 0 <= k < i ==> self.strings@[k]@ != name@,
            decreases self.strings@.len() - i,
        {
            if self.strings[i] == owned {
                proof {
                    let j = choose|j: int|
                        0 <= j < self.strings@.len() && #[trigger] self.strings@[j]@ == name@;
                    if j != i {
                        if j < i {
                        } else {
                            assert(self.strings@[i as int]@ != self.strings@[j]@);
                        }
                    }
                }
                return Some((i + 1) as u32);
            }
            i = i + 1;
        }
        None
    }

    /// Handle of `name`, interning it first when new.
    pub fn intern(&mut self, name: &str) -> (r: SmallString)
        requires
            old(self).wf(),
            old(self).strings@.len() < u32::MAX - 1,
        ensures
            final(self).wf(),
            old(self).spec_lookup(name@) matches Some(h) ==> r == h && final(self).strings@ == old(self).strings@,
            old(self).spec_lookup(name@) is None ==> r == old(self).strings@.len() + 1
                && final(self).strings@ == old(self).strings@.push(final(self).strings@.last())
                && final(self).strings@.last()@ == name@,
            final(self).spec_lookup(name@) == Some(r),
            final(self).strings@.len() >= old(self).strings@.len(),
            forall|i: int| 0 <= i < old(self).strings@.len() ==> final(self).strings@[i] == old(self).strings@[i],
    {
        match self.lookup(name) {
            Some(h) => h,
            None => {
                let n = self.strings.len();
                let owned = name.to_owned();
                self.strings.push(owned);
                proof {
                    assert(self.strings@[n as int]@ == name@);
                    assert forall|i: int, j: int|
                        0 <= i < j < self.strings@.len() implies #[trigger] self.strings@[i]@
                            != #[trigger] self.strings@[j]@ by {
                        if j == n {
                            assert(old(self).strings@[i] == self.strings@[i]);
                        } else {
                            assert(old(self).strings@[i] == self.strings@[i]);
                            assert(old(self).strings@[j] == self.strings@[j]);
                        }
                    }
                    let j = choose|j: int|
                        0 <= j < self.strings@.len() && #[trigger] self.strings@[j]@ == name@;
                    if j != n {
                        assert(old(self).strings@[j] == self.strings@[j]);
                    }
                }
                (n + 1) as u32
            }
        }
    }

    /// The string behind handle `h`, if any.
    pub fn resolve(&self, h: SmallString) -> (r: Option<&String>)
        ensures
            (1 <= h <= self.strings@.len()) ==> r == Some(&self.strings@[h - 1]),
            !(1 <= h <= self.strings@.len()) ==> r is None,
    {
        if h >= 1 && ((h - 1) as usize) < self.strings.len() {
            Some(&self.strings[(h - 1) as usize])
        } else {
            None
        }
    }
}

// =============================================================================
// Subtypes
// =============================================================================

/// Subtypes of an object, as interned handles.
#[derive(Clone, Debug, PartialEq, Eq, Default)]
pub struct SubtypeSet(pub Vec<SmallString>);

impl SubtypeSet {
    /// The subtype spelled `name` is interned and in the set.
    pub open spec fn has_named(&self, interner: &StringInterner, name: Seq<char>) -> bool {
        match interner.spec_lookup(name) {
            Some(h) => self.0@.contains(h),
            None => false,
        }
    }

    pub fn new() -> (s: SubtypeSet)
        ensures
            s.0@.len() == 0,
    {
        SubtypeSet(Vec::new())
    }

    /// Add a subtype (no-op when already present).
    pub fn insert(&mut self, sym: SmallString)
        ensures
            old(self).0@.contains(sym) ==> final(self).0@ == old(self).0@,
            !old(self).0@.contains(sym) ==> final(self).0@ == old(self).0@.push(sym),
    {
        if !self.contains(sym) {
            self.0.push(sym);
        }
    }

    pub fn contains(&self, sym: SmallString) -> (b: bool)
        ensures
            b == self.0@.contains(sym),
    {
        let mut i: usize = 0;
        while i < self.0.len()
            invariant
                i <= self.0@.len(),
                forall|k: int| 0 <= k < i ==> self.0@[k] != sym,
            decreases self.0@.len() - i,
        {
            if self.0[i] == sym {
                return true;
            }
            i = i + 1;
        }
        false
    }

    /// Does the set contain the subtype spelled `name`?
    pub fn contains_name(&self, interner: &StringInterner, name: &str) -> (b: bool)
        requires
            interner.wf(),
        ensures
            b == self.has_named(interner, name@),
    {
        match interner.lookup(name) {
            Some(h) => self.contains(h),
            None => false,
        }
    }

    /// Build a set from subtype names, interning each.
    pub fn from_names(interner: &mut StringInterner, names: &[&str]) -> (s: SubtypeSet)
        requires
            old(interner).wf(),
            old(interner).strings@.len() + names@.len() < u32::MAX - 1,
        ensures
            final(interner).wf(),
            s.0@.len() <= names@.len(),
            forall|i: int| 0 <= i < names@.len() ==> s.has_named(final(interner), names@[i]@),
    {
        let mut out = SubtypeSet::new();
        let mut i: usize = 0;
        while i < names.len()
            invariant
                interner.wf(),
                i <= names@.len(),
                interner.strings@.len() <= old(interner).strings@.len() + i,
                old(interner).strings@.len() + names@.len() < u32::MAX - 1,
                out.0@.len() <= i,
                forall|k: int| 0 <= k < i ==> #[trigger] out.has_named(interner, names@[k]@),
            decreases names@.len() - i,
        {
            let ghost ib = *interner;
            let h = interner.intern(names[i]);
            proof {
                assert forall|k: int| 0 <= k < i implies #[trigger] out.has_named(interner, names@[k]@) by {
                    assert(out.has_named(&ib, names@[k]@));
                    lemma_lookup_stable(ib.strings@, interner.strings@, names@[k]@);
                }
            }
            let ghost ob = out;
            out.insert(h);
            proof {
                assert forall|k: int| 0 <= k <= i implies #[trigger] out.has_named(interner, names@[k]@) by {
                    if k < i {
                        assert(ob.has_named(interner, names@[k]@));
                        let hh = interner.spec_lookup(names@[k]@)->0;
                        assert(ob.0@.contains(hh));
                        let w = choose|w: int| 0 <= w < ob.0@.len() && ob.0@[w] == hh;
                        assert(out.0@[w] == hh);
                    } else {
                        assert(interner.spec_lookup(names@[i as int]@) == Some(h));
                        if !ob.0@.contains(h) {
                            assert(out.0@[out.0@.len() - 1] == h);
                        }
                    }
                }
            }
            i = i + 1;
        }
        out
    }
}

/// Interning a new string keeps the handles of the old ones.
pub proof fn lemma_lookup_stable(before: Seq<String>, after: Seq<String>, name: Seq<char>)
    requires
        after.len() >= before.len(),
        forall|i: int| 0 <= i < before.len() ==> after[i] == before[i],
        forall|i: int, j: int| 0 <= i < j < after.len() ==> #[trigger] after[i]@ != #[trigger] after[j]@,
        exists|i: int| 0 <= i < before.len() && #[trigger] before[i]@ == name,
    ensures
        lookup_in(after, name) == lookup_in(before, name),
{
    let i = choose|i: int| 0 <= i < before.len() && #[trigger] before[i]@ == name;
    assert(after[i]@ == name);
    let j = choose|j: int| 0 <= j < after.len() && #[trigger] after[j]@ == name;
    if i < j {
        assert(after[i]@ != after[j]@);
    } else if j < i {
        assert(after[j]@ != after[i]@);
    }
}

// =============================================================================
// Counters
// =============================================================================

/// Kinds of counters that can sit on objects or players.
#[derive(Clone, Copy, Debug, PartialEq, Eq, Structural, Hash, PartialOrd, Ord)]
pub enum CounterKind {
    PlusOnePlusOne,
    MinusOneMinusOne,
    Loyalty,
    Lore,
    Charge,
    Time,
    Level,
    Shield,
    Stun,
    Oil,
    Poison,
    Energy,
}

/// Number of counter kinds.
pub const COUNTER_KINDS: usize = 12;

pub open spec fn spec_counter_index(k: CounterKind) -> int {
    match k {
        CounterKind::PlusOnePlusOne => 0,
        CounterKind::MinusOneMinusOne => 1,
        CounterKind::Loyalty => 2,
        CounterKind::Lore => 3,
        CounterKind::Charge => 4,
        CounterKind::Time => 5,
        CounterKind::Level => 6,
        CounterKind::Shield => 7,
        CounterKind::Stun => 8,
        CounterKind::Oil => 9,
        CounterKind::Poison => 10,
        CounterKind::Energy => 11,
    }
}

impl CounterKind {
    pub fn index(self) -> (i: usize)
        ensures
            i == spec_counter_index(self),
            i < COUNTER_KINDS,
    {
        match self {
            CounterKind::PlusOnePlusOne => 0,
            CounterKind::MinusOneMinusOne => 1,
            CounterKind::Loyalty => 2,
            CounterKind::Lore => 3,
            CounterKind::Charge => 4,
            CounterKind::Time => 5,
            CounterKind::Level => 6,
            CounterKind::Shield => 7,
            CounterKind::Stun => 8,
            CounterKind::Oil => 9,
            CounterKind::Poison => 10,
            CounterKind::Energy => 11,
        }
    }
}

/// Number of counters of each kind; kinds never placed read as 0.
#[derive(Clone, Copy, Debug, PartialEq, Eq)]
pub struct CounterMap {
    pub counts: [u32; COUNTER_KINDS],
}

impl CounterMap {
    /// Number of `k` counters.
    pub open spec fn count(&self, k: CounterKind) -> u32 {
        self.counts@[spec_counter_index(k)]
    }

    /// No counters at all.
    pub fn new() -> (m: CounterMap)
        ensures
            forall|k: CounterKind| #[trigger] m.count(k) == 0,
    {
        let m = CounterMap { counts: [0, 0, 0, 0, 0, 0, 0, 0, 0, 0, 0, 0] };
        proof {
            assert forall|k: CounterKind| #[trigger] m.count(k) == 0 by {
                assert(0 <= spec_counter_index(k) < COUNTER_KINDS);
            }
        }
        m
    }

    pub fn get(&self, k: CounterKind) -> (n: u32)
        ensures
            n == self.count(k),
    {
        self.counts[k.index()]
    }

    /// Set the number of `k` counters to `n`.
    pub fn set(&mut self, k: CounterKind, n: u32)
        ensures
            final(self).count(k) == n,
            forall|j: CounterKind| j != k ==> #[trigger] final(self).count(j) == old(self).count(j),
    {
        let i = k.index();
        self.counts[i] = n;
        proof {
            assert forall|j: CounterKind| j != k implies #[trigger] self.count(j) == old(self).count(j) by {
                assert(spec_counter_index(j) != spec_counter_index(k));
                assert(0 <= spec_counter_index(j) < COUNTER_KINDS);
            }
        }
    }

    /// Remove every counter.
    pub fn clear(&mut self)
        ensures
            forall|k: CounterKind| #[trigger] final(self).count(k) == 0,
    {
        *self = CounterMap::new();
    }

    /// No counter of any kind.
    pub fn is_empty(&self) -> (b: bool)
        ensures
            b == (forall|k: CounterKind| #[trigger] self.count(k) == 0),
    {
        let mut i: usize = 0;
        while i < COUNTER_KINDS
            invariant
                i <= COUNTER_KINDS,
                forall|j: int| 0 <= j < i ==> self.counts@[j] == 0,
            decreases COUNTER_KINDS - i,
        {
            if self.counts[i] != 0 {
                proof {
                    let k = counter_kind_at(i as int);
                    assert(self.count(k) != 0);
                }
                return false;
            }
            i = i + 1;
        }
        proof {
            assert forall|k: CounterKind| #[trigger] self.count(k) == 0 by {
                assert(0 <= spec_counter_index(k) < COUNTER_KINDS);
            }
        }
        true
    }
}

/// `m` with the number of `k` counters set to `n`.
pub open spec fn counters_with(m: CounterMap, k: CounterKind, n: u32) -> CounterMap {
    CounterMap { counts: vstd::array::spec_array_update(m.counts, spec_counter_index(k), n) }
}

/// A map holding `n` counters of kind `k` and as many of every other
/// kind as `m` is `counters_with(m, k, n)`.
pub proof fn lemma_counters_with(m: CounterMap, k: CounterKind, n: u32, r: CounterMap)
    requires
        r.count(k) == n,
        forall|j: CounterKind| j != k ==> #[trigger] r.count(j) == m.count(j),
    ensures
        r == counters_with(m, k, n),
{
    broadcast use vstd::array::group_array_axioms;
    let w = counters_with(m, k, n);
    assert(w.counts@ == m.counts@.update(spec_counter_index(k), n));
    assert forall|i: int| 0 <= i < COUNTER_KINDS implies r.counts[i] == w.counts[i] by {
        let j = counter_kind_at(i);
        assert(spec_counter_index(j) == i);
        if j != k {
            assert(r.count(j) == m.count(j));
        }
    }
    assert(r.counts =~= w.counts);
}

/// The counter kind stored at index `i`.
pub open spec fn counter_kind_at(i: int) -> CounterKind {
    if i == 0 {
        CounterKind::PlusOnePlusOne
    } else if i == 1 {
        CounterKind::MinusOneMinusOne
    } else if i == 2 {
        CounterKind::Loyalty
    } else if i == 3 {
        CounterKind::Lore
    } else if i == 4 {
        CounterKind::Charge
    } else if i == 5 {
        CounterKind::Time
    } else if i == 6 {
        CounterKind::Level
    } else if i == 7 {
        CounterKind::Shield
    } else if i == 8 {
        CounterKind::Stun
    } else if i == 9 {
        CounterKind::Oil
    } else if i == 10 {
        CounterKind::Poison
    } else {
        CounterKind::Energy
    }
}

// =============================================================================
// Power / toughness
// =============================================================================

/// A printed power or toughness value.
#[derive(Clone, Copy, Debug, PartialEq, Eq, Structural, Hash)]
pub enum PtValue {
    /// A number, e.g. `2`.
    Fixed(i32),
    /// `*` — defined by a characteristic-defining ability.
    Star,
    /// `*+N`.
    StarPlus(i32),
}

impl PtValue {
    pub open spec fn spec_resolve(self, star: Option<i32>) -> Option<int> {
        match self {
            PtValue::Fixed(n) => Some(n as int),
            PtValue::Star => match star {
                Some(s) => Some(s as int),
                None => None,
            },
            PtValue::StarPlus(k) => match star {
                Some(s) => Some(s + k),
                None => None,
            },
        }
    }

    /// The numeric value, using `star` for `*`. `None` when the value
    /// uses `*` and no `star` is supplied.
    pub fn resolve(self, star: Option<i32>) -> (r: Option<i32>)
        requires
            self.spec_resolve(star) matches Some(v) ==> i32::MIN <= v <= i32::MAX,
        ensures
            r matches Some(v) ==> self.spec_resolve(star) == Some(v as int),
            r is None ==> self.spec_resolve(star) is None,
    {
        match self {
            PtValue::Fixed(n) => Some(n),
            PtValue::Star => star,
            PtValue::StarPlus(k) => match star {
                Some(s) => Some(s + k),
                None => None,
            },
        }
    }
}

} // verus!

verus! {

// =============================================================================
// Keywords and commodity tokens
// =============================================================================

/// Keyword abilities the rules core knows about.
#[derive(Clone, Copy, Debug, PartialEq, Eq, Structural, Hash)]
pub enum KeywordAbility {
    Flying,
    FirstStrike,
    DoubleStrike,
    Deathtouch,
    Defender,
    Flash,
    Haste,
    Hexproof,
    Indestructible,
    Lifelink,
    Menace,
    Reach,
    Shroud,
    Trample,
    Vigilance,
}

/// Predefined artifact tokens ("commodity" tokens) the engine mints by kind.
#[derive(Clone, Copy, Debug, PartialEq, Eq, Structural, Hash)]
pub enum CommodityToken {
    Treasure,
    Clue,
    Food,
    Powerstone,
    Incubator,
    Blood,
    MapToken,
}

} // verus!
