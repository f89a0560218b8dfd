//! Mana costs, the mana pool, and the payment solver.
//!
//! The solver enumerates every valid payment plan for a given
//! `(cost, pool, spend-context)` triple: a greedy path for "simple" costs
//! (generic, colored, colorless and snow pips) and a backtracking
//! enumerator for hybrid, monohybrid and Phyrexian pips.

use vstd::prelude::*;

use crate::objects::ObjectId;
use crate::text::{
    chars_to_string, decimal_chars, is_whitespace, lemma_decimal_digits, lemma_parse_decimal, parse_u32, spec_decimal,
    spec_is_digit, spec_is_whitespace, spec_parse_u32, str_chars,
};
use crate::types::{
    spec_color_bit, spec_color_letter, spec_color_to_mana, Color, ColorSet, ManaColor, SmallString, TypeLine,
};

verus! {

// =============================================================================
// ManaCost + components
// =============================================================================

/// One pip of a mana cost.
///
/// `Colorless` is the `{C}` symbol — it must be paid with colorless mana
/// specifically, unlike `Generic(1)`, which any mana can pay.
#[derive(Clone, Copy, Debug, PartialEq, Eq, Structural, Hash)]
pub enum ManaCostComponent {
    Generic(u32),
    Colored(Color),
    Colorless,
    Hybrid(Color, Color),
    PhyrexianColored(Color),
    PhyrexianHybrid(Color, Color),
    /// `{2/W}` — pay 2 generic, or 1 of the color.
    MonoHybrid(Color),
    Snow,
    X,
}

/// A mana cost as written on a card, e.g. `{1}{G}`, `{X}{R}{R}`, `{W/U}{B/P}`.
#[derive(Debug, Default, PartialEq, Eq, Hash)]
pub struct ManaCost {
    pub components: Vec<ManaCostComponent>,
}

impl Clone for ManaCost {
    fn clone(&self) -> (r: Self)
        ensures
            r.components@ == self.components@,
    {
        ManaCost { components: self.components.clone() }
    }
}

pub open spec fn spec_contribution(c: ManaCostComponent) -> nat {
    match c {
        ManaCostComponent::Generic(n) => n as nat,
        ManaCostComponent::Colored(_) => 1,
        ManaCostComponent::Colorless => 1,
        ManaCostComponent::Hybrid(_, _) => 1,
        ManaCostComponent::PhyrexianColored(_) => 1,
        ManaCostComponent::PhyrexianHybrid(_, _) => 1,
        ManaCostComponent::MonoHybrid(_) => 2,
        ManaCostComponent::Snow => 1,
        ManaCostComponent::X => 0,
    }
}

pub open spec fn spec_is_simple(c: ManaCostComponent) -> bool {
    match c {
        ManaCostComponent::Generic(_) => true,
        ManaCostComponent::Colored(_) => true,
        ManaCostComponent::Colorless => true,
        ManaCostComponent::Snow => true,
        _ => false,
    }
}

/// Bits of the colors a component can require.
pub open spec fn spec_component_color_bits(c: ManaCostComponent) -> u8 {
    match c {
        ManaCostComponent::Colored(a) => spec_color_bit(a),
        ManaCostComponent::PhyrexianColored(a) => spec_color_bit(a),
        ManaCostComponent::MonoHybrid(a) => spec_color_bit(a),
        ManaCostComponent::Hybrid(a, b) => spec_color_bit(a) | spec_color_bit(b),
        ManaCostComponent::PhyrexianHybrid(a, b) => spec_color_bit(a) | spec_color_bit(b),
        _ => 0,
    }
}

/// Printed mana value of a component sequence, `{X}` counting `x`.
pub open spec fn spec_value_with_x(s: Seq<ManaCostComponent>, x: nat) -> nat
    decreases s.len(),
{
    if s.len() == 0 {
        0
    } else {
        spec_value_with_x(s.drop_last(), x) + match s.last() {
            ManaCostComponent::X => x,
            c => spec_contribution(c),
        }
    }
}

/// Printed mana value (CR 202.3), `{X}` counting 0.
pub open spec fn spec_mana_value(s: Seq<ManaCostComponent>) -> nat {
    spec_value_with_x(s, 0)
}

/// Number of `{X}` pips.
pub open spec fn spec_x_count(s: Seq<ManaCostComponent>) -> nat
    decreases s.len(),
{
    if s.len() == 0 {
        0
    } else {
        spec_x_count(s.drop_last()) + if s.last() == ManaCostComponent::X {
            1nat
        } else {
            0nat
        }
    }
}

/// Union of the color bits of every component.
pub open spec fn spec_color_bits(s: Seq<ManaCostComponent>) -> u8
    decreases s.len(),
{
    if s.len() == 0 {
        0
    } else {
        spec_color_bits(s.drop_last()) | spec_component_color_bits(s.last())
    }
}

impl ManaCostComponent {
    /// Contribution to the card's printed mana value (CR 202.3).
    /// Monohybrid `{2/W}` contributes 2; `{X}` contributes 0.
    pub fn mana_value_contribution(&self) -> (n: u32)
        ensures
            n == spec_contribution(*self),
    {
        match self {
            ManaCostComponent::Generic(n) => *n,
            ManaCostComponent::Colored(_) => 1,
            ManaCostComponent::Colorless => 1,
            ManaCostComponent::Hybrid(_, _) => 1,
            ManaCostComponent::PhyrexianColored(_) => 1,
            ManaCostComponent::PhyrexianHybrid(_, _) => 1,
            ManaCostComponent::MonoHybrid(_) => 2,
            ManaCostComponent::Snow => 1,
            ManaCostComponent::X => 0,
        }
    }

    /// Colors this component potentially requires. Generic, Snow, X and
    /// `{C}` give the empty set.
    pub fn colors(&self) -> (s: ColorSet)
        ensures
            s.0 == spec_component_color_bits(*self),
    {
        match self {
            ManaCostComponent::Colored(a) => ColorSet(a.bit()),
            ManaCostComponent::PhyrexianColored(a) => ColorSet(a.bit()),
            ManaCostComponent::MonoHybrid(a) => ColorSet(a.bit()),
            ManaCostComponent::Hybrid(a, b) => ColorSet(a.bit() | b.bit()),
            ManaCostComponent::PhyrexianHybrid(a, b) => ColorSet(a.bit() | b.bit()),
            _ => ColorSet(0),
        }
    }

    /// True for `Generic`, `Colored`, `Colorless` and `Snow`: the pips the
    /// greedy solver handles, since the payer has no real choice.
    pub fn is_simple(&self) -> (b: bool)
        ensures
            b == spec_is_simple(*self),
    {
        match self {
            ManaCostComponent::Generic(_) => true,
            ManaCostComponent::Colored(_) => true,
            ManaCostComponent::Colorless => true,
            ManaCostComponent::Snow => true,
            _ => false,
        }
    }
}

impl ManaCost {
    pub fn empty() -> (c: ManaCost)
        ensures
            c.components@.len() == 0,
    {
        ManaCost { components: Vec::new() }
    }

    /// Printed mana value, counting `{X}` as 0 (CR 202.3e).
    pub fn mana_value(&self) -> (n: u32)
        requires
            spec_mana_value(self.components@) <= u32::MAX,
        ensures
            n == spec_mana_value(self.components@),
    {
        self.mana_value_with_x(0)
    }

    /// Effective mana value when cast with a chosen `x`: each `{X}` counts
    /// `x` once.
    pub fn mana_value_with_x(&self, x: u32) -> (n: u32)
        requires
            spec_value_with_x(self.components@, x as nat) <= u32::MAX,
        ensures
            n == spec_value_with_x(self.components@, x as nat),
    {
        let mut total: u32 = 0;
        let mut i: usize = 0;
        while i < self.components.len()
            invariant
                i <= self.components@.len(),
                total == spec_value_with_x(self.components@.take(i as int), x as nat),
                spec_value_with_x(self.components@, x as nat) <= u32::MAX,
            decreases self.components@.len() - i,
        {
            proof {
                assert(self.components@.take(i + 1).drop_last() =~= self.components@.take(i as int));
                lemma_value_prefix_le(self.components@, x as nat, i + 1);
            }
            let c = self.components[i];
            let add = match c {
                ManaCostComponent::X => x,
                _ => c.mana_value_contribution(),
            };
            total = total + add;
            i = i + 1;
        }
        proof {
            assert(self.components@.take(i as int) =~= self.components@);
        }
        total
    }

    /// Color identity contribution of this cost (CR 903.4).
    pub fn colors(&self) -> (s: ColorSet)
        ensures
            s.0 == spec_color_bits(self.components@),
    {
        let mut bits: u8 = 0;
        let mut i: usize = 0;
        while i < self.components.len()
            invariant
                i <= self.components@.len(),
                bits == spec_color_bits(self.components@.take(i as int)),
            decreases self.components@.len() - i,
        {
            proof {
                assert(self.components@.take(i + 1).drop_last() =~= self.components@.take(i as int));
            }
            bits = bits | self.components[i].colors().0;
            i = i + 1;
        }
        proof {
            assert(self.components@.take(i as int) =~= self.components@);
        }
        ColorSet(bits)
    }

    /// Number of `{X}` symbols (usually 0 or 1).
    pub fn x_count(&self) -> (n: u32)
        requires
            self.components@.len() <= u32::MAX,
        ensures
            n == spec_x_count(self.components@),
    {
        let mut n: u32 = 0;
        let mut i: usize = 0;
        while i < self.components.len()
            invariant
                i <= self.components@.len(),
                self.components@.len() <= u32::MAX,
                n == spec_x_count(self.components@.take(i as int)),
                n <= i,
            decreases self.components@.len() - i,
        {
            proof {
                assert(self.components@.take(i + 1).drop_last() =~= self.components@.take(i as int));
            }
            if self.components[i] == ManaCostComponent::X {
                n = n + 1;
            }
            i = i + 1;
        }
        proof {
            assert(self.components@.take(i as int) =~= self.components@);
        }
        n
    }

    pub fn is_empty(&self) -> (b: bool)
        ensures
            b == (self.components@.len() == 0),
    {
        self.components.len() == 0
    }

    pub fn len(&self) -> (n: usize)
        ensures
            n == self.components@.len(),
    {
        self.components.len()
    }

    /// True if every component is simple (no hybrid / Phyrexian / X).
    pub fn is_simple(&self) -> (b: bool)
        ensures
            b == (forall|i: int|
                0 <= i < self.components@.len() ==> #[trigger] spec_is_simple(self.components@[i])),
    {
        let mut i: usize = 0;
        while i < self.components.len()
            invariant
                i <= self.components@.len(),
                forall|k: int| 0 <= k < i ==> #[trigger] spec_is_simple(self.components@[k]),
            decreases self.components@.len() - i,
        {
            if !self.components[i].is_simple() {
                return false;
            }
            i = i + 1;
        }
        true
    }
}

/// The text of one symbol between its braces: `2`, `G`, `W/U`, `B/P`,
/// `W/U/P`, `2/W`, `C`, `S`, `X`.
pub open spec fn spec_component_body(c: ManaCostComponent) -> Seq<char> {
    match c {
        ManaCostComponent::Generic(n) => spec_decimal(n as nat),
        ManaCostComponent::Colored(a) => seq![spec_color_letter(a)],
        ManaCostComponent::Colorless => seq!['C'],
        ManaCostComponent::Hybrid(a, b) => seq![spec_color_letter(a), '/', spec_color_letter(b)],
        ManaCostComponent::PhyrexianColored(a) => seq![spec_color_letter(a), '/', 'P'],
        ManaCostComponent::PhyrexianHybrid(a, b) => seq![spec_color_letter(a), '/', spec_color_letter(b), '/', 'P'],
        ManaCostComponent::MonoHybrid(a) => seq!['2', '/', spec_color_letter(a)],
        ManaCostComponent::Snow => seq!['S'],
        ManaCostComponent::X => seq!['X'],
    }
}

/// The written form of one symbol, braces included: `{2}`, `{G}`, `{W/U}`.
pub open spec fn spec_component_text(c: ManaCostComponent) -> Seq<char> {
    seq!['{'] + spec_component_body(c) + seq!['}']
}

/// The written form of a cost: its symbols one after the other.
pub open spec fn spec_cost_text(s: Seq<ManaCostComponent>) -> Seq<char>
    decreases s.len(),
{
    if s.len() == 0 {
        Seq::empty()
    } else {
        spec_cost_text(s.drop_last()) + spec_component_text(s.last())
    }
}

impl ManaCostComponent {
    /// Append this symbol's written form to `out`.
    pub fn write_text(&self, out: &mut Vec<char>)
        ensures
            final(out)@ == old(out)@ + spec_component_text(*self),
    {
        let ghost start = out@;
        out.push('{');
        match self {
            ManaCostComponent::Generic(n) => {
                let d = decimal_chars(*n);
                let mut i: usize = 0;
                while i < d.len()
                    invariant
                        i <= d@.len(),
                        out@ == start + seq!['{'] + d@.take(i as int),
                    decreases d@.len() - i,
                {
                    out.push(d[i]);
                    proof {
                        assert(d@.take(i + 1) =~= d@.take(i as int).push(d@[i as int]));
                        assert(start + seq!['{'] + d@.take(i + 1) =~= (start + seq!['{'] + d@.take(i as int)).push(d@[i as int]));
                    }
                    i = i + 1;
                }
                proof {
                    assert(d@.take(i as int) =~= d@);
                }
            },
            ManaCostComponent::Colored(a) => {
                out.push(a.letter());
            },
            ManaCostComponent::Colorless => {
                out.push('C');
            },
            ManaCostComponent::Hybrid(a, b) => {
                out.push(a.letter());
                out.push('/');
                out.push(b.letter());
            },
            ManaCostComponent::PhyrexianColored(a) => {
                out.push(a.letter());
                out.push('/');
                out.push('P');
            },
            ManaCostComponent::PhyrexianHybrid(a, b) => {
                out.push(a.letter());
                out.push('/');
                out.push(b.letter());
                out.push('/');
                out.push('P');
            },
            ManaCostComponent::MonoHybrid(a) => {
                out.push('2');
                out.push('/');
                out.push(a.letter());
            },
            ManaCostComponent::Snow => {
                out.push('S');
            },
            ManaCostComponent::X => {
                out.push('X');
            },
        }
        out.push('}');
        proof {
            assert(out@ =~= start + spec_component_text(*self));
        }
    }
}

impl ManaCost {
    /// The written form of the cost, e.g. `{X}{R}{R}`; the empty cost is
    /// the empty string.
    pub fn to_string(&self) -> (s: String)
        ensures
            s@ == spec_cost_text(self.components@),
    {
        let mut out: Vec<char> = Vec::new();
        let mut i: usize = 0;
        while i < self.components.len()
            invariant
                i <= self.components@.len(),
                out@ == spec_cost_text(self.components@.take(i as int)),
            decreases self.components@.len() - i,
        {
            self.components[i].write_text(&mut out);
            proof {
                assert(self.components@.take(i + 1).drop_last() =~= self.components@.take(i as int));
                assert(self.components@.take(i + 1).last() == self.components@[i as int]);
            }
            i = i + 1;
        }
        proof {
            assert(self.components@.take(i as int) =~= self.components@);
        }
        chars_to_string(&out)
    }
}

/// A prefix never has a larger mana value than the whole cost.
pub proof fn lemma_value_prefix_le(s: Seq<ManaCostComponent>, x: nat, k: int)
    requires
        0 <= k <= s.len(),
    ensures
        spec_value_with_x(s.take(k), x) <= spec_value_with_x(s, x),
    decreases s.len() - k,
{
    if k < s.len() {
        lemma_value_prefix_le(s, x, k + 1);
        assert(s.take(k + 1).drop_last() =~= s.take(k));
    } else {
        assert(s.take(k) =~= s);
    }
}

/// Law: the mana value with a chosen X is the printed mana value plus X
/// once per `{X}` pip.
pub proof fn law_mana_value_with_x(s: Seq<ManaCostComponent>, x: nat)
    ensures
        spec_value_with_x(s, x) == spec_mana_value(s) + x * spec_x_count(s),
    decreases s.len(),
{
    if s.len() > 0 {
        let t = s.drop_last();
        law_mana_value_with_x(t, x);
        let c = spec_x_count(t);
        if s.last() == ManaCostComponent::X {
            assert(spec_x_count(s) == c + 1);
            assert(x * (c + 1) == x * c + x) by (nonlinear_arith);
            assert(spec_value_with_x(s, x) == spec_value_with_x(t, x) + x);
            assert(spec_value_with_x(s, 0) == spec_value_with_x(t, 0));
        } else {
            assert(spec_x_count(s) == c);
            assert(spec_value_with_x(s, x) == spec_value_with_x(t, x) + spec_contribution(s.last()));
            assert(spec_value_with_x(s, 0) == spec_value_with_x(t, 0) + spec_contribution(s.last()));
        }
    } else {
        assert(x * 0 == 0) by (nonlinear_arith);
    }
}

// =============================================================================
// Parsing
// =============================================================================

/// Why a mana-cost string failed to parse.
#[derive(Debug, PartialEq, Eq)]
pub enum ManaCostParseError {
    /// A character other than `{` or whitespace between symbols.
    ExpectedOpenBrace(char),
    /// A `{` with no closing `}`.
    UnterminatedBrace,
    /// `{}`.
    EmptyToken,
    /// A symbol that is no mana symbol, e.g. `{Q}`.
    InvalidToken(String),
    /// A color code that is no color, e.g. the `Q` of `{Q/W}`.
    InvalidColor(String),
    /// `{N/W}` with `N` other than 2.
    InvalidMonoHybrid(u32),
}

/// The mathematical value of a [`ManaCostParseError`].
pub ghost enum ParseErrorView {
    ExpectedOpenBrace(char),
    UnterminatedBrace,
    EmptyToken,
    InvalidToken(Seq<char>),
    InvalidColor(Seq<char>),
    InvalidMonoHybrid(u32),
}

impl View for ManaCostParseError {
    type V = ParseErrorView;

    open spec fn view(&self) -> ParseErrorView {
        match self {
            ManaCostParseError::ExpectedOpenBrace(c) => ParseErrorView::ExpectedOpenBrace(*c),
            ManaCostParseError::UnterminatedBrace => ParseErrorView::UnterminatedBrace,
            ManaCostParseError::EmptyToken => ParseErrorView::EmptyToken,
            ManaCostParseError::InvalidToken(t) => ParseErrorView::InvalidToken(t@),
            ManaCostParseError::InvalidColor(t) => ParseErrorView::InvalidColor(t@),
            ManaCostParseError::InvalidMonoHybrid(n) => ParseErrorView::InvalidMonoHybrid(*n),
        }
    }
}

pub open spec fn component_result_view(r: Result<ManaCostComponent, ManaCostParseError>) -> Result<
    ManaCostComponent,
    ParseErrorView,
> {
    match r {
        Ok(c) => Ok(c),
        Err(e) => Err(e@),
    }
}

pub open spec fn color_result_view(r: Result<Color, ManaCostParseError>) -> Result<
    Color,
    ParseErrorView,
> {
    match r {
        Ok(c) => Ok(c),
        Err(e) => Err(e@),
    }
}

/// A one-letter color code: `W`, `U`, `B`, `R` or `G`.
pub open spec fn spec_parse_color(t: Seq<char>) -> Result<Color, ParseErrorView> {
    if t == seq!['W'] {
        Ok(Color::White)
    } else if t == seq!['U'] {
        Ok(Color::Blue)
    } else if t == seq!['B'] {
        Ok(Color::Black)
    } else if t == seq!['R'] {
        Ok(Color::Red)
    } else if t == seq!['G'] {
        Ok(Color::Green)
    } else {
        Err(ParseErrorView::InvalidColor(t))
    }
}

/// The pieces of `t` between `/` separators (an empty piece where two
/// separators meet or at either end), as `str::split('/')` yields them.
pub open spec fn spec_split_slash(t: Seq<char>) -> Seq<Seq<char>>
    decreases t.len(),
{
    if t.len() == 0 {
        seq![Seq::<char>::empty()]
    } else {
        let p = spec_split_slash(t.drop_last());
        if t.last() == '/' {
            p.push(Seq::<char>::empty())
        } else {
            p.update(p.len() - 1, p.last().push(t.last()))
        }
    }
}

/// A one-character symbol: a color, `C`, `S` or `X`.
pub open spec fn spec_parse_single(t: Seq<char>) -> Result<ManaCostComponent, ParseErrorView> {
    if t == seq!['W'] {
        Ok(ManaCostComponent::Colored(Color::White))
    } else if t == seq!['U'] {
        Ok(ManaCostComponent::Colored(Color::Blue))
    } else if t == seq!['B'] {
        Ok(ManaCostComponent::Colored(Color::Black))
    } else if t == seq!['R'] {
        Ok(ManaCostComponent::Colored(Color::Red))
    } else if t == seq!['G'] {
        Ok(ManaCostComponent::Colored(Color::Green))
    } else if t == seq!['C'] {
        Ok(ManaCostComponent::Colorless)
    } else if t == seq!['S'] {
        Ok(ManaCostComponent::Snow)
    } else if t == seq!['X'] {
        Ok(ManaCostComponent::X)
    } else {
        Err(ParseErrorView::InvalidToken(t))
    }
}

/// A symbol with slashes: `{a/P}`, `{a/b/P}`, `{2/a}` or `{a/b}`.
pub open spec fn spec_parse_slashed(t: Seq<char>) -> Result<ManaCostComponent, ParseErrorView> {
    let parts = spec_split_slash(t);
    if parts.len() == 2 && parts[1] == seq!['P'] {
        match spec_parse_color(parts[0]) {
            Ok(a) => Ok(ManaCostComponent::PhyrexianColored(a)),
            Err(e) => Err(e),
        }
    } else if parts.len() == 3 && parts[2] == seq!['P'] {
        match spec_parse_color(parts[0]) {
            Ok(a) => match spec_parse_color(parts[1]) {
                Ok(b) => Ok(ManaCostComponent::PhyrexianHybrid(a, b)),
                Err(e) => Err(e),
            },
            Err(e) => Err(e),
        }
    } else if parts.len() == 2 {
        match spec_parse_u32(parts[0]) {
            Some(n) => if n == 2 {
                match spec_parse_color(parts[1]) {
                    Ok(b) => Ok(ManaCostComponent::MonoHybrid(b)),
                    Err(e) => Err(e),
                }
            } else {
                Err(ParseErrorView::InvalidMonoHybrid(n))
            },
            None => match spec_parse_color(parts[0]) {
                Ok(a) => match spec_parse_color(parts[1]) {
                    Ok(b) => Ok(ManaCostComponent::Hybrid(a, b)),
                    Err(e) => Err(e),
                },
                Err(e) => Err(e),
            },
        }
    } else {
        Err(ParseErrorView::InvalidToken(t))
    }
}

/// The symbol written between one pair of braces.
pub open spec fn spec_parse_component(t: Seq<char>) -> Result<ManaCostComponent, ParseErrorView> {
    if t.len() == 0 {
        Err(ParseErrorView::EmptyToken)
    } else if spec_parse_u32(t) is Some {
        Ok(ManaCostComponent::Generic(spec_parse_u32(t)->0))
    } else if t.len() == 1 {
        spec_parse_single(t)
    } else if t.contains('/') {
        spec_parse_slashed(t)
    } else {
        Err(ParseErrorView::InvalidToken(t))
    }
}

/// Position of the first `}` at or after `j`.
pub open spec fn spec_close_at(s: Seq<char>, j: int) -> Option<int>
    decreases s.len() - j,
{
    if j < 0 || j >= s.len() {
        None
    } else if s[j] == '}' {
        Some(j)
    } else {
        spec_close_at(s, j + 1)
    }
}

/// Parse the cost text from position `i` on.
pub open spec fn spec_parse_from(s: Seq<char>, i: int) -> Result<Seq<ManaCostComponent>, ParseErrorView>
    decreases s.len() - i,
{
    if i < 0 || i >= s.len() {
        Ok(Seq::empty())
    } else if spec_is_whitespace(s[i]) {
        spec_parse_from(s, i + 1)
    } else if s[i] != '{' {
        Err(ParseErrorView::ExpectedOpenBrace(s[i]))
    } else {
        match spec_close_at(s, i + 1) {
            None => Err(ParseErrorView::UnterminatedBrace),
            Some(k) => if k < i + 1 || k >= s.len() {
                Err(ParseErrorView::UnterminatedBrace)
            } else {
                match spec_parse_component(s.subrange(i + 1, k)) {
                    Err(e) => Err(e),
                    Ok(c) => match spec_parse_from(s, k + 1) {
                        Ok(rest) => Ok(seq![c] + rest),
                        Err(e) => Err(e),
                    },
                }
            },
        }
    }
}

/// Parse a whole cost text: whitespace between symbols is ignored, the
/// first error met from left to right is reported.
pub open spec fn spec_parse_cost(s: Seq<char>) -> Result<Seq<ManaCostComponent>, ParseErrorView> {
    spec_parse_from(s, 0)
}

// -----------------------------------------------------------------------------
// Reading back the written form
// -----------------------------------------------------------------------------

/// A color's letter reads back as that color, and is no digit, sign,
/// separator or brace.
proof fn lemma_color_letter(a: Color)
    ensures
        spec_parse_color(seq![spec_color_letter(a)]) == Ok::<Color, ParseErrorView>(a),
        spec_parse_single(seq![spec_color_letter(a)]) == Ok::<ManaCostComponent, ParseErrorView>(
            ManaCostComponent::Colored(a),
        ),
        !spec_is_digit(spec_color_letter(a)),
        spec_color_letter(a) != '+',
        spec_color_letter(a) != '/',
        spec_color_letter(a) != 'P',
        spec_color_letter(a) != '}',
{
    let l = spec_color_letter(a);
    assert(seq![l] =~= seq![l]);
    match a {
        Color::White => {
            assert(seq![l] =~= seq!['W']);
        },
        Color::Blue => {
            assert(seq![l] =~= seq!['U']);
            assert(seq!['U'] != seq!['W']) by {
                assert(seq!['U'][0] != seq!['W'][0]);
            }
        },
        Color::Black => {
            assert(seq![l] =~= seq!['B']);
            assert(seq!['B'] != seq!['W']) by {
                assert(seq!['B'][0] != seq!['W'][0]);
            }
            assert(seq!['B'] != seq!['U']) by {
                assert(seq!['B'][0] != seq!['U'][0]);
            }
        },
        Color::Red => {
            assert(seq![l] =~= seq!['R']);
            assert(seq!['R'] != seq!['W']) by {
                assert(seq!['R'][0] != seq!['W'][0]);
            }
            assert(seq!['R'] != seq!['U']) by {
                assert(seq!['R'][0] != seq!['U'][0]);
            }
            assert(seq!['R'] != seq!['B']) by {
                assert(seq!['R'][0] != seq!['B'][0]);
            }
        },
        Color::Green => {
            assert(seq![l] =~= seq!['G']);
            assert(seq!['G'] != seq!['W']) by {
                assert(seq!['G'][0] != seq!['W'][0]);
            }
            assert(seq!['G'] != seq!['U']) by {
                assert(seq!['G'][0] != seq!['U'][0]);
            }
            assert(seq!['G'] != seq!['B']) by {
                assert(seq!['G'][0] != seq!['B'][0]);
            }
            assert(seq!['G'] != seq!['R']) by {
                assert(seq!['G'][0] != seq!['R'][0]);
            }
        },
    }
}

/// A text whose first character is neither a digit nor `+` is no
/// number.
proof fn lemma_not_number(t: Seq<char>)
    requires
        t.len() > 0,
        !spec_is_digit(t[0]),
        t[0] != '+',
    ensures
        spec_parse_u32(t) is None,
{
    assert(!crate::text::spec_all_digits(t));
}

/// Splitting `x/y` at the slash.
proof fn lemma_split_two(x: char, y: char)
    requires
        x != '/',
        y != '/',
    ensures
        spec_split_slash(seq![x, '/', y]) == seq![seq![x], seq![y]],
{
    let t = seq![x, '/', y];
    assert(t.drop_last() =~= seq![x, '/']);
    assert(seq![x, '/'].drop_last() =~= seq![x]);
    assert(seq![x].drop_last() =~= Seq::<char>::empty());
    assert(spec_split_slash(Seq::<char>::empty()) == seq![Seq::<char>::empty()]);
    assert(seq![x].last() == x);
    assert(spec_split_slash(seq![x]) == seq![Seq::<char>::empty()].update(0, Seq::<char>::empty().push(x)));
    assert(seq![Seq::<char>::empty()].update(0, Seq::<char>::empty().push(x)) =~= seq![seq![x]]);
    assert(spec_split_slash(seq![x, '/']) =~= seq![seq![x], Seq::<char>::empty()]);
    assert(spec_split_slash(t) =~= seq![seq![x], seq![y]]) by {
        assert(Seq::<char>::empty().push(y) =~= seq![y]);
    }
}

/// Splitting `x/y/z` at the slashes.
proof fn lemma_split_three(x: char, y: char, z: char)
    requires
        x != '/',
        y != '/',
        z != '/',
    ensures
        spec_split_slash(seq![x, '/', y, '/', z]) == seq![seq![x], seq![y], seq![z]],
{
    lemma_split_two(x, y);
    let t = seq![x, '/', y, '/', z];
    assert(t.drop_last() =~= seq![x, '/', y, '/']);
    assert(seq![x, '/', y, '/'].drop_last() =~= seq![x, '/', y]);
    assert(spec_split_slash(seq![x, '/', y, '/']) =~= seq![seq![x], seq![y], Seq::<char>::empty()]);
    assert(spec_split_slash(t) =~= seq![seq![x], seq![y], seq![z]]) by {
        assert(Seq::<char>::empty().push(z) =~= seq![z]);
    }
}

/// The text between a symbol's braces reads back as the symbol, and holds
/// no closing brace.
proof fn lemma_parse_body(c: ManaCostComponent)
    ensures
        spec_parse_component(spec_component_body(c)) == Ok::<ManaCostComponent, ParseErrorView>(c),
        spec_component_body(c).len() > 0,
        forall|i: int| 0 <= i < spec_component_body(c).len() ==> #[trigger] spec_component_body(c)[i] != '}',
{
    let t = spec_component_body(c);
    assert(spec_is_digit('2'));
    assert(!spec_is_digit('/'));
    assert(!spec_is_digit('C') && !spec_is_digit('S') && !spec_is_digit('X') && !spec_is_digit('P'));
    match c {
        ManaCostComponent::Generic(n) => {
            lemma_decimal_digits(n as nat);
            lemma_parse_decimal(n);
            assert forall|i: int| 0 <= i < t.len() implies #[trigger] t[i] != '}' by {
                assert(spec_is_digit(t[i]));
            }
        },
        ManaCostComponent::Colored(a) => {
            lemma_color_letter(a);
            lemma_not_number(t);
        },
        ManaCostComponent::Colorless => {
            lemma_not_number(t);
        },
        ManaCostComponent::Snow => {
            lemma_not_number(t);
            assert(t != seq!['C']) by {
                assert(t[0] != seq!['C'][0]);
            }
            assert(t != seq!['W'] && t != seq!['U'] && t != seq!['B'] && t != seq!['R'] && t != seq!['G']) by {
                assert(t[0] != seq!['W'][0] && t[0] != seq!['U'][0] && t[0] != seq!['B'][0]);
                assert(t[0] != seq!['R'][0] && t[0] != seq!['G'][0]);
            }
        },
        ManaCostComponent::X => {
            lemma_not_number(t);
            assert(t != seq!['C'] && t != seq!['S']) by {
                assert(t[0] != seq!['C'][0] && t[0] != seq!['S'][0]);
            }
            assert(t != seq!['W'] && t != seq!['U'] && t != seq!['B'] && t != seq!['R'] && t != seq!['G']) by {
                assert(t[0] != seq!['W'][0] && t[0] != seq!['U'][0] && t[0] != seq!['B'][0]);
                assert(t[0] != seq!['R'][0] && t[0] != seq!['G'][0]);
            }
        },
        ManaCostComponent::Hybrid(a, b) => {
            lemma_color_letter(a);
            lemma_color_letter(b);
            lemma_not_number(t);
            let la = spec_color_letter(a);
            let lb = spec_color_letter(b);
            lemma_split_two(la, lb);
            assert(t[1] == '/');
            assert(seq![lb] != seq!['P']) by {
                assert(seq![lb][0] != seq!['P'][0]);
            }
            lemma_not_number(seq![la]);
        },
        ManaCostComponent::PhyrexianColored(a) => {
            lemma_color_letter(a);
            lemma_not_number(t);
            let la = spec_color_letter(a);
            lemma_split_two(la, 'P');
            assert(t[1] == '/');
        },
        ManaCostComponent::PhyrexianHybrid(a, b) => {
            lemma_color_letter(a);
            lemma_color_letter(b);
            lemma_not_number(t);
            let la = spec_color_letter(a);
            let lb = spec_color_letter(b);
            lemma_split_three(la, lb, 'P');
            assert(t[1] == '/');
        },
        ManaCostComponent::MonoHybrid(a) => {
            lemma_color_letter(a);
            let la = spec_color_letter(a);
            assert(!crate::text::spec_all_digits(t)) by {
                assert(!spec_is_digit(t[1]));
            }
            lemma_split_two('2', la);
            assert(t[1] == '/');
            assert(seq![la] != seq!['P']) by {
                assert(seq![la][0] != seq!['P'][0]);
            }
            assert(crate::text::spec_all_digits(seq!['2']));
            assert(seq!['2'].drop_last() =~= Seq::<char>::empty());
            assert(('2' as u32) == 50);
            assert(crate::text::spec_digits_value(seq!['2']) == crate::text::spec_digits_value(
                Seq::<char>::empty(),
            ) * 10 + crate::text::spec_digit_value('2'));
            assert(crate::text::spec_digits_value(seq!['2']) == 2);
        },
    }
}

/// Scanning for `}` from `j` stops at `e` when nothing before `e` closes.
proof fn lemma_close_scan(s: Seq<char>, j: int, e: int)
    requires
        0 <= j <= e < s.len(),
        forall|k: int| j <= k < e ==> s[k] != '}',
        s[e] == '}',
    ensures
        spec_close_at(s, j) == Some(e),
    decreases e - j,
{
    if j < e {
        lemma_close_scan(s, j + 1, e);
    }
}

/// The written form of `c` followed by that of `cs`.
proof fn lemma_text_front(c: ManaCostComponent, cs: Seq<ManaCostComponent>)
    ensures
        spec_cost_text(seq![c] + cs) == spec_component_text(c) + spec_cost_text(cs),
    decreases cs.len(),
{
    if cs.len() == 0 {
        assert(seq![c] + cs =~= seq![c]);
        assert(seq![c].drop_last() =~= Seq::<ManaCostComponent>::empty());
        assert(spec_cost_text(seq![c]) == spec_cost_text(Seq::<ManaCostComponent>::empty()) + spec_component_text(c));
        assert(spec_cost_text(Seq::<ManaCostComponent>::empty()) + spec_component_text(c) =~= spec_component_text(c));
        assert(spec_component_text(c) + spec_cost_text(cs) =~= spec_component_text(c));
    } else {
        lemma_text_front(c, cs.drop_last());
        assert((seq![c] + cs).drop_last() =~= seq![c] + cs.drop_last());
        assert((seq![c] + cs).last() == cs.last());
        assert(spec_cost_text(seq![c] + cs) == spec_cost_text(seq![c] + cs.drop_last()) + spec_component_text(cs.last()));
        assert(spec_cost_text(cs) == spec_cost_text(cs.drop_last()) + spec_component_text(cs.last()));
        assert(spec_component_text(c) + spec_cost_text(cs.drop_last()) + spec_component_text(cs.last())
            =~= spec_component_text(c) + (spec_cost_text(cs.drop_last()) + spec_component_text(cs.last())));
    }
}

/// After any text `pre`, the written form of `cs` reads back as `cs`.
proof fn lemma_parse_text_after(pre: Seq<char>, cs: Seq<ManaCostComponent>)
    ensures
        spec_parse_from(pre + spec_cost_text(cs), pre.len() as int) == Ok::<Seq<ManaCostComponent>, ParseErrorView>(cs),
    decreases cs.len(),
{
    let s = pre + spec_cost_text(cs);
    let i = pre.len() as int;
    if cs.len() == 0 {
        assert(s =~= pre);
        assert(cs =~= Seq::<ManaCostComponent>::empty());
    } else {
        let c = cs[0];
        let rest = cs.drop_first();
        assert(cs =~= seq![c] + rest);
        lemma_text_front(c, rest);
        let body = spec_component_body(c);
        lemma_parse_body(c);
        let pre2 = pre + spec_component_text(c);
        assert(s =~= pre2 + spec_cost_text(rest));
        let e = i + 1 + body.len();
        assert(s[i] == '{');
        assert(!spec_is_whitespace('{'));
        assert forall|k: int| i + 1 <= k < e implies s[k] != '}' by {
            assert(s[k] == body[k - i - 1]);
        }
        assert(s[e] == '}');
        lemma_close_scan(s, i + 1, e);
        assert(s.subrange(i + 1, e) =~= body);
        lemma_parse_text_after(pre2, rest);
        assert(pre2.len() == e + 1);
        assert(spec_parse_from(s, e + 1) == Ok::<Seq<ManaCostComponent>, ParseErrorView>(rest));
        assert(spec_close_at(s, i + 1) == Some(e));
        assert(spec_parse_component(s.subrange(i + 1, e)) == Ok::<ManaCostComponent, ParseErrorView>(c));
    }
}

/// Law: reading back the written form of a cost gives the cost.
pub proof fn law_parse_display_roundtrip(cs: Seq<ManaCostComponent>)
    ensures
        spec_parse_cost(spec_cost_text(cs)) == Ok::<Seq<ManaCostComponent>, ParseErrorView>(cs),
{
    lemma_parse_text_after(Seq::empty(), cs);
    assert(Seq::<char>::empty() + spec_cost_text(cs) =~= spec_cost_text(cs));
}

/// Prefix the components `pre` onto a parse result.
pub open spec fn prepend_result(pre: Seq<ManaCostComponent>, r: Result<Seq<ManaCostComponent>, ParseErrorView>) -> Result<
    Seq<ManaCostComponent>,
    ParseErrorView,
> {
    match r {
        Ok(rest) => Ok(pre + rest),
        Err(e) => Err(e),
    }
}

pub open spec fn cost_result_view(r: Result<ManaCost, ManaCostParseError>) -> Result<
    Seq<ManaCostComponent>,
    ParseErrorView,
> {
    match r {
        Ok(c) => Ok(c.components@),
        Err(e) => Err(e@),
    }
}

fn is_single(t: &Vec<char>, c: char) -> (b: bool)
    ensures
        b == (t@ == seq![c]),
{
    let r = t.len() == 1 && t[0] == c;
    proof {
        if t@.len() == 1 && t@[0] == c {
            assert(t@ =~= seq![c]);
        }
    }
    r
}

fn parse_color(t: &Vec<char>) -> (r: Result<Color, ManaCostParseError>)
    ensures
        color_result_view(r) == spec_parse_color(t@),
{
    if is_single(t, 'W') {
        Ok(Color::White)
    } else if is_single(t, 'U') {
        Ok(Color::Blue)
    } else if is_single(t, 'B') {
        Ok(Color::Black)
    } else if is_single(t, 'R') {
        Ok(Color::Red)
    } else if is_single(t, 'G') {
        Ok(Color::Green)
    } else {
        Err(ManaCostParseError::InvalidColor(chars_to_string(t)))
    }
}

/// Split a symbol at its `/` separators.
fn split_slash(t: &Vec<char>) -> (parts: Vec<Vec<char>>)
    ensures
        parts@.map_values(|p: Vec<char>| p@) == spec_split_slash(t@),
{
    let mut parts: Vec<Vec<char>> = Vec::new();
    parts.push(Vec::new());
    let mut i: usize = 0;
    proof {
        assert(t@.take(0) =~= Seq::<char>::empty());
        assert(parts@.map_values(|p: Vec<char>| p@) =~= seq![Seq::<char>::empty()]);
    }
    while i < t.len()
        invariant
            i <= t@.len(),
            parts@.len() >= 1,
            parts@.map_values(|p: Vec<char>| p@) == spec_split_slash(t@.take(i as int)),
        decreases t@.len() - i,
    {
        let c = t[i];
        let ghost before = parts@.map_values(|p: Vec<char>| p@);
        proof {
            assert(t@.take(i + 1).drop_last() =~= t@.take(i as int));
        }
        if c == '/' {
            parts.push(Vec::new());
            proof {
                assert(parts@.map_values(|p: Vec<char>| p@) =~= before.push(Seq::<char>::empty()));
            }
        } else {
            let last = parts.len() - 1;
            let mut piece = parts.pop().unwrap();
            piece.push(c);
            parts.push(piece);
            proof {
                assert(parts@.map_values(|p: Vec<char>| p@) =~= before.update(
                    before.len() - 1,
                    before.last().push(c),
                ));
            }
        }
        i = i + 1;
    }
    proof {
        assert(t@.take(i as int) =~= t@);
    }
    parts
}

fn parse_single(t: &Vec<char>) -> (r: Result<ManaCostComponent, ManaCostParseError>)
    ensures
        component_result_view(r) == spec_parse_single(t@),
{
    if is_single(t, 'W') {
        Ok(ManaCostComponent::Colored(Color::White))
    } else if is_single(t, 'U') {
        Ok(ManaCostComponent::Colored(Color::Blue))
    } else if is_single(t, 'B') {
        Ok(ManaCostComponent::Colored(Color::Black))
    } else if is_single(t, 'R') {
        Ok(ManaCostComponent::Colored(Color::Red))
    } else if is_single(t, 'G') {
        Ok(ManaCostComponent::Colored(Color::Green))
    } else if is_single(t, 'C') {
        Ok(ManaCostComponent::Colorless)
    } else if is_single(t, 'S') {
        Ok(ManaCostComponent::Snow)
    } else if is_single(t, 'X') {
        Ok(ManaCostComponent::X)
    } else {
        Err(ManaCostParseError::InvalidToken(chars_to_string(t)))
    }
}

fn parse_slashed(t: &Vec<char>) -> (r: Result<ManaCostComponent, ManaCostParseError>)
    ensures
        component_result_view(r) == spec_parse_slashed(t@),
{
    let parts = split_slash(t);
    let ghost pv = parts@.map_values(|p: Vec<char>| p@);
    assert(pv == spec_split_slash(t@));
    if parts.len() == 2 && is_single(&parts[1], 'P') {
        assert(pv[1] == parts@[1]@);
        assert(pv[0] == parts@[0]@);
        match parse_color(&parts[0]) {
            Ok(a) => Ok(ManaCostComponent::PhyrexianColored(a)),
            Err(e) => Err(e),
        }
    } else if parts.len() == 3 && is_single(&parts[2], 'P') {
        assert(pv[2] == parts@[2]@);
        assert(pv[1] == parts@[1]@);
        assert(pv[0] == parts@[0]@);
        match parse_color(&parts[0]) {
            Ok(a) => match parse_color(&parts[1]) {
                Ok(b) => Ok(ManaCostComponent::PhyrexianHybrid(a, b)),
                Err(e) => Err(e),
            },
            Err(e) => Err(e),
        }
    } else if parts.len() == 2 {
        assert(pv[1] == parts@[1]@);
        assert(pv[0] == parts@[0]@);
        match parse_u32(&parts[0]) {
            Some(n) => {
                if n == 2 {
                    match parse_color(&parts[1]) {
                        Ok(b) => Ok(ManaCostComponent::MonoHybrid(b)),
                        Err(e) => Err(e),
                    }
                } else {
                    Err(ManaCostParseError::InvalidMonoHybrid(n))
                }
            },
            None => match parse_color(&parts[0]) {
                Ok(a) => match parse_color(&parts[1]) {
                    Ok(b) => Ok(ManaCostComponent::Hybrid(a, b)),
                    Err(e) => Err(e),
                },
                Err(e) => Err(e),
            },
        }
    } else {
        Err(ManaCostParseError::InvalidToken(chars_to_string(t)))
    }
}

fn contains_char(t: &Vec<char>, c: char) -> (b: bool)
    ensures
        b == t@.contains(c),
{
    let mut i: usize = 0;
    while i < t.len()
        invariant
            i <= t@.len(),
            forall|k: int| 0 <= k < i ==> t@[k] != c,
        decreases t@.len() - i,
    {
        if t[i] == c {
            return true;
        }
        i = i + 1;
    }
    false
}

/// Parse the symbol written between one pair of braces.
fn parse_component(t: &Vec<char>) -> (r: Result<ManaCostComponent, ManaCostParseError>)
    ensures
        component_result_view(r) == spec_parse_component(t@),
{
    if t.len() == 0 {
        return Err(ManaCostParseError::EmptyToken);
    }
    if let Some(n) = parse_u32(t) {
        return Ok(ManaCostComponent::Generic(n));
    }
    if t.len() == 1 {
        return parse_single(t);
    }
    if contains_char(t, '/') {
        return parse_slashed(t);
    }
    Err(ManaCostParseError::InvalidToken(chars_to_string(t)))
}

impl ManaCost {
    /// Parse a mana cost string like `"{1}{G}"` or `"{X}{W/U}{B/P}"`.
    /// An empty string parses to an empty cost (zero-mana spells).
    pub fn parse(s: &str) -> (r: Result<ManaCost, ManaCostParseError>)
        ensures
            cost_result_view(r) == spec_parse_cost(s@),
    {
        let chars = str_chars(s);
        let mut components: Vec<ManaCostComponent> = Vec::new();
        let mut i: usize = 0;
        while i < chars.len()
            invariant
                i <= chars@.len(),
                chars@ == s@,
                spec_parse_cost(s@) == prepend_result(components@, spec_parse_from(s@, i as int)),
            decreases chars@.len() - i,
        {
            let c = chars[i];
            if is_whitespace(c) {
                i = i + 1;
                continue;
            }
            if c != '{' {
                return Err(ManaCostParseError::ExpectedOpenBrace(c));
            }
            let mut token: Vec<char> = Vec::new();
            let mut j: usize = i + 1;
            while j < chars.len() && chars[j] != '}'
                invariant
                    i + 1 <= j <= chars@.len(),
                    i < chars@.len(),
                    chars@ == s@,
                    token@ == s@.subrange(i + 1, j as int),
                    spec_close_at(s@, i + 1) == spec_close_at(s@, j as int),
                decreases chars@.len() - j,
            {
                token.push(chars[j]);
                proof {
                    assert(s@.subrange(i + 1, j + 1) =~= s@.subrange(i + 1, j as int).push(s@[j as int]));
                }
                j = j + 1;
            }
            if j >= chars.len() {
                return Err(ManaCostParseError::UnterminatedBrace);
            }
            assert(spec_close_at(s@, j as int) == Some(j as int));
            let comp = parse_component(&token);
            match comp {
                Err(e) => {
                    return Err(e);
                },
                Ok(cc) => {
                    let ghost before = components@;
                    components.push(cc);
                    proof {
                        let rest = spec_parse_from(s@, j + 1);
                        match rest {
                            Ok(rr) => {
                                assert(before + (seq![cc] + rr) =~= components@ + rr);
                            },
                            Err(_) => {},
                        }
                    }
                    i = j + 1;
                },
            }
        }
        proof {
            assert(components@ + Seq::<ManaCostComponent>::empty() =~= components@);
        }
        Ok(ManaCost { components })
    }
}

// =============================================================================
// Spend restrictions, mana units and the pool
// =============================================================================

/// A restriction on how a particular [`ManaUnit`] may be spent.
#[derive(Clone, Copy, Debug, PartialEq, Eq, Structural, Hash)]
pub enum SpendRestriction {
    OnlyCastCreatureSpells,
    OnlyCastSpellsOfColor(ColorSet),
    OnlyCastSpellsOfType(TypeLine),
    OnlyActivateAbilities,
    /// An interned description that no spend context satisfies yet.
    Custom(SmallString),
}

#[derive(Clone, Copy, Debug, Default, PartialEq, Eq, Structural, Hash)]
pub struct ManaRestrictions {
    /// e.g. "spend only to cast creature spells".
    pub spend_only_on: Option<SpendRestriction>,
    /// Snow mana, for `{S}` pips.
    pub is_snow: bool,
}

impl ManaRestrictions {
    /// No restriction, not snow.
    pub fn none() -> (r: ManaRestrictions)
        ensures
            r.spend_only_on is None,
            !r.is_snow,
    {
        ManaRestrictions { spend_only_on: None, is_snow: false }
    }
}

/// A single unit of mana in a player's pool.
#[derive(Clone, Copy, Debug, PartialEq, Eq, Structural, Hash)]
pub struct ManaUnit {
    pub color: ManaColor,
    /// Object that produced this mana.
    pub source: ObjectId,
    pub restrictions: ManaRestrictions,
}

impl ManaUnit {
    /// An unrestricted, non-snow unit of `color` produced by `source`.
    pub fn plain(color: ManaColor, source: ObjectId) -> (u: ManaUnit)
        ensures
            u.color == color,
            u.source == source,
            u.restrictions.spend_only_on is None,
            !u.restrictions.is_snow,
    {
        ManaUnit { color, source, restrictions: ManaRestrictions::none() }
    }
}

/// Number of units of `color` in `s`; with `unrestricted_only`, only the
/// units without a spend restriction count.
pub open spec fn spec_count_color(s: Seq<ManaUnit>, color: ManaColor, unrestricted_only: bool) -> nat
    decreases s.len(),
{
    if s.len() == 0 {
        0
    } else {
        spec_count_color(s.drop_last(), color, unrestricted_only) + if s.last().color == color && (
        !unrestricted_only || s.last().restrictions.spend_only_on is None) {
            1nat
        } else {
            0nat
        }
    }
}

/// A player's mana pool. Emptied at the end of each step (CR 106.4).
#[derive(Clone, Debug, Default, PartialEq, Eq)]
pub struct ManaPool {
    pub pool: Vec<ManaUnit>,
}

impl ManaPool {
    pub fn new() -> (p: ManaPool)
        ensures
            p.pool@.len() == 0,
    {
        ManaPool { pool: Vec::new() }
    }

    pub fn add(&mut self, unit: ManaUnit)
        ensures
            final(self).pool@ == old(self).pool@.push(unit),
    {
        self.pool.push(unit);
    }

    /// Add `amount` plain (unrestricted) units of `color` from `source`.
    pub fn add_mana(&mut self, color: ManaColor, amount: u32, source: ObjectId)
        ensures
            final(self).pool@.len() == old(self).pool@.len() + amount,
            forall|i: int| 0 <= i < old(self).pool@.len() ==> final(self).pool@[i] == old(self).pool@[i],
            forall|i: int|
                old(self).pool@.len() <= i < final(self).pool@.len() ==> final(self).pool@[i]
                    == (ManaUnit { color, source, restrictions: ManaRestrictions { spend_only_on: None, is_snow: false } }),
    {
        let mut k: u32 = 0;
        while k < amount
            invariant
                k <= amount,
                self.pool@.len() == old(self).pool@.len() + k,
                forall|i: int| 0 <= i < old(self).pool@.len() ==> self.pool@[i] == old(self).pool@[i],
                forall|i: int|
                    old(self).pool@.len() <= i < self.pool@.len() ==> self.pool@[i]
                        == (ManaUnit { color, source, restrictions: ManaRestrictions { spend_only_on: None, is_snow: false } }),
            decreases amount - k,
        {
            self.pool.push(ManaUnit::plain(color, source));
            k = k + 1;
        }
    }

    pub fn clear(&mut self)
        ensures
            final(self).pool@.len() == 0,
    {
        self.pool.clear();
    }

    pub fn len(&self) -> (n: usize)
        ensures
            n == self.pool@.len(),
    {
        self.pool.len()
    }

    pub fn is_empty(&self) -> (b: bool)
        ensures
            b == (self.pool@.len() == 0),
    {
        self.pool.len() == 0
    }

    /// The units, in the order they were added.
    pub fn iter(&self) -> (it: std::slice::Iter<'_, ManaUnit>)
        ensures
            vstd::std_specs::iter::IteratorSpec::remaining(&it) == self.pool@.as_ref(),
    {
        let sl = self.pool.as_slice();
        let it = sl.iter();
        proof {
            vstd::std_specs::slice::axiom_spec_slice_iter(sl);
        }
        it
    }

    /// Count mana of a specific color in the pool.
    pub fn count_color(&self, color: ManaColor) -> (n: usize)
        ensures
            n == spec_count_color(self.pool@, color, false),
    {
        self.count_matching(color, false)
    }

    /// Count mana of a color that carries no spend restriction.
    pub fn count_unrestricted_color(&self, color: ManaColor) -> (n: usize)
        ensures
            n == spec_count_color(self.pool@, color, true),
    {
        self.count_matching(color, true)
    }

    fn count_matching(&self, color: ManaColor, unrestricted_only: bool) -> (n: usize)
        ensures
            n == spec_count_color(self.pool@, color, unrestricted_only),
    {
        let mut n: usize = 0;
        let mut i: usize = 0;
        while i < self.pool.len()
            invariant
                i <= self.pool@.len(),
                n == spec_count_color(self.pool@.take(i as int), color, unrestricted_only),
                n <= i,
            decreases self.pool@.len() - i,
        {
            proof {
                assert(self.pool@.take(i + 1).drop_last() =~= self.pool@.take(i as int));
            }
            let u = self.pool[i];
            if u.color == color && (!unrestricted_only || u.restrictions.spend_only_on.is_none()) {
                n = n + 1;
            }
            i = i + 1;
        }
        proof {
            assert(self.pool@.take(i as int) =~= self.pool@);
        }
        n
    }

    /// Total number of units.
    pub fn total(&self) -> (n: usize)
        ensures
            n == self.pool@.len(),
    {
        self.pool.len()
    }
}

// =============================================================================
// Payment plans
// =============================================================================

/// One pool unit paying (part of) one cost component.
#[derive(Clone, Copy, Debug, PartialEq, Eq, Structural, Hash)]
pub struct ManaAssignment {
    /// Index of the unit in the pool.
    pub pool_index: usize,
    /// Index of the component in the (X-expanded) cost.
    pub cost_index: usize,
}

/// A way to pay a cost: which pool unit pays which component, and which
/// Phyrexian components are paid with 2 life instead.
#[derive(Debug, Default, PartialEq, Eq)]
pub struct ManaPaymentPlan {
    pub assignments: Vec<ManaAssignment>,
    /// Cost indices of Phyrexian components paid with life.
    pub phyrexian_life_payments: Vec<usize>,
    /// Creatures tapped for convoke (always empty from the solver).
    pub convoke_creatures: Vec<u32>,
    /// Cards exiled for delve (always empty from the solver).
    pub delve_cards: Vec<u32>,
}

impl Clone for ManaPaymentPlan {
    fn clone(&self) -> (r: Self)
        ensures
            r.assignments@ == self.assignments@,
            r.phyrexian_life_payments@ == self.phyrexian_life_payments@,
            r.convoke_creatures@ == self.convoke_creatures@,
            r.delve_cards@ == self.delve_cards@,
    {
        ManaPaymentPlan {
            assignments: self.assignments.clone(),
            phyrexian_life_payments: self.phyrexian_life_payments.clone(),
            convoke_creatures: self.convoke_creatures.clone(),
            delve_cards: self.delve_cards.clone(),
        }
    }
}

impl ManaPaymentPlan {
    /// The plan that pays nothing.
    pub fn empty() -> (p: ManaPaymentPlan)
        ensures
            p.assignments@.len() == 0,
            p.phyrexian_life_payments@.len() == 0,
            p.convoke_creatures@.len() == 0,
            p.delve_cards@.len() == 0,
    {
        ManaPaymentPlan {
            assignments: Vec::new(),
            phyrexian_life_payments: Vec::new(),
            convoke_creatures: Vec::new(),
            delve_cards: Vec::new(),
        }
    }
}

// =============================================================================
// Spend context
// =============================================================================

/// What sort of thing is being paid for. Decides which
/// [`SpendRestriction`]s are satisfied.
#[derive(Clone, Copy, Debug, PartialEq, Eq, Structural)]
pub enum CastingKind {
    Spell { types: TypeLine, colors: ColorSet },
    ActivatedAbility,
    /// Other paid events (escape, cycling…): neither a spell nor an ability.
    Other,
}

/// What the solver needs to evaluate spend restrictions.
#[derive(Clone, Copy, Debug, PartialEq, Eq, Structural)]
pub struct SpendContext {
    pub casting_kind: CastingKind,
}

impl SpendContext {
    pub fn for_spell(types: TypeLine, colors: ColorSet) -> (c: SpendContext)
        ensures
            c.casting_kind == (CastingKind::Spell { types, colors }),
    {
        SpendContext { casting_kind: CastingKind::Spell { types, colors } }
    }

    pub fn for_activated_ability() -> (c: SpendContext)
        ensures
            c.casting_kind == CastingKind::ActivatedAbility,
    {
        SpendContext { casting_kind: CastingKind::ActivatedAbility }
    }

    pub fn unrestricted() -> (c: SpendContext)
        ensures
            c.casting_kind == CastingKind::Other,
    {
        SpendContext { casting_kind: CastingKind::Other }
    }
}

/// Does `r` permit spending a unit carrying it in `ctx`?
pub open spec fn spec_restriction_permits(r: SpendRestriction, ctx: SpendContext) -> bool {
    match ctx.casting_kind {
        CastingKind::Spell { types, colors } => match r {
            SpendRestriction::OnlyCastCreatureSpells => types.0 & 2 != 0,
            SpendRestriction::OnlyCastSpellsOfColor(f) => colors.0 & f.0 != 0,
            SpendRestriction::OnlyCastSpellsOfType(f) => types.0 & f.0 != 0,
            _ => false,
        },
        CastingKind::ActivatedAbility => r == SpendRestriction::OnlyActivateAbilities,
        CastingKind::Other => false,
    }
}

/// May `u` be spent in `ctx` at all?
pub open spec fn spec_spendable(u: ManaUnit, ctx: SpendContext) -> bool {
    match u.restrictions.spend_only_on {
        None => true,
        Some(r) => spec_restriction_permits(r, ctx),
    }
}

/// The kind of unit a specific pip needs.
#[derive(Clone, Copy, Debug, PartialEq, Eq, Structural)]
pub enum SpecificPip {
    Color(ManaColor),
    Colorless,
    Snow,
}

pub open spec fn spec_matches_pip(u: ManaUnit, pip: SpecificPip, ctx: SpendContext) -> bool {
    spec_spendable(u, ctx) && match pip {
        SpecificPip::Color(c) => u.color == c,
        SpecificPip::Colorless => u.color == ManaColor::Colorless,
        SpecificPip::Snow => u.restrictions.is_snow,
    }
}

fn restriction_permits(r: &SpendRestriction, ctx: &SpendContext) -> (b: bool)
    ensures
        b == spec_restriction_permits(*r, *ctx),
{
    match ctx.casting_kind {
        CastingKind::Spell { types, colors } => match r {
            SpendRestriction::OnlyCastCreatureSpells => types.0 & 2 != 0,
            SpendRestriction::OnlyCastSpellsOfColor(f) => colors.0 & f.0 != 0,
            SpendRestriction::OnlyCastSpellsOfType(f) => types.0 & f.0 != 0,
            _ => false,
        },
        CastingKind::ActivatedAbility => match r {
            SpendRestriction::OnlyActivateAbilities => true,
            _ => false,
        },
        CastingKind::Other => false,
    }
}

fn unit_is_spendable(u: &ManaUnit, ctx: &SpendContext) -> (b: bool)
    ensures
        b == spec_spendable(*u, *ctx),
{
    match &u.restrictions.spend_only_on {
        None => true,
        Some(r) => restriction_permits(r, ctx),
    }
}

fn unit_matches_specific(u: &ManaUnit, pip: SpecificPip, ctx: &SpendContext) -> (b: bool)
    ensures
        b == spec_matches_pip(*u, pip, *ctx),
{
    if !unit_is_spendable(u, ctx) {
        return false;
    }
    match pip {
        SpecificPip::Color(c) => u.color == c,
        SpecificPip::Colorless => u.color == ManaColor::Colorless,
        SpecificPip::Snow => u.restrictions.is_snow,
    }
}

// =============================================================================
// What a valid plan is
// =============================================================================

/// Number of assignments paying component `ci`.
pub open spec fn assigned_count(a: Seq<ManaAssignment>, ci: int) -> nat
    decreases a.len(),
{
    if a.len() == 0 {
        0
    } else {
        assigned_count(a.drop_last(), ci) + if a.last().cost_index == ci {
            1nat
        } else {
            0nat
        }
    }
}

/// What each unit paying a component must be.
#[derive(Clone, Copy, Debug, PartialEq, Eq, Structural)]
pub enum PipReq {
    /// Any spendable unit.
    Any,
    /// A unit matching the pip.
    One(SpecificPip),
    /// A unit matching either pip.
    Either(SpecificPip, SpecificPip),
}

pub open spec fn spec_unit_meets(u: ManaUnit, req: PipReq, ctx: SpendContext) -> bool {
    match req {
        PipReq::Any => spec_spendable(u, ctx),
        PipReq::One(p) => spec_matches_pip(u, p, ctx),
        PipReq::Either(p, q) => spec_matches_pip(u, p, ctx) || spec_matches_pip(u, q, ctx),
    }
}

/// Every unit paying component `ci` meets `req`.
pub open spec fn all_assigned_meet(
    pool: Seq<ManaUnit>,
    a: Seq<ManaAssignment>,
    ci: int,
    req: PipReq,
    ctx: SpendContext,
) -> bool {
    forall|j: int|
        0 <= j < a.len() && #[trigger] a[j].cost_index == ci ==> spec_unit_meets(
            pool[a[j].pool_index as int],
            req,
            ctx,
        )
}

pub open spec fn color_pip(c: Color) -> SpecificPip {
    SpecificPip::Color(spec_color_to_mana(c))
}

/// Component `ci`, which is `comp`, is paid by the assignments `a` and the
/// life payments `life`.
pub open spec fn component_paid(
    comp: ManaCostComponent,
    pool: Seq<ManaUnit>,
    a: Seq<ManaAssignment>,
    life: Seq<usize>,
    ci: int,
    ctx: SpendContext,
) -> bool {
    let n = assigned_count(a, ci);
    let l = life.contains(ci as usize);
    match comp {
        ManaCostComponent::Generic(g) => n == g && !l && all_assigned_meet(pool, a, ci, PipReq::Any, ctx),
        ManaCostComponent::Colored(c) => n == 1 && !l && all_assigned_meet(
            pool,
            a,
            ci,
            PipReq::One(color_pip(c)),
            ctx,
        ),
        ManaCostComponent::Colorless => n == 1 && !l && all_assigned_meet(
            pool,
            a,
            ci,
            PipReq::One(SpecificPip::Colorless),
            ctx,
        ),
        ManaCostComponent::Snow => n == 1 && !l && all_assigned_meet(
            pool,
            a,
            ci,
            PipReq::One(SpecificPip::Snow),
            ctx,
        ),
        ManaCostComponent::Hybrid(x, y) => n == 1 && !l && all_assigned_meet(
            pool,
            a,
            ci,
            PipReq::Either(color_pip(x), color_pip(y)),
            ctx,
        ),
        ManaCostComponent::MonoHybrid(c) => !l && ((n == 2 && all_assigned_meet(
            pool,
            a,
            ci,
            PipReq::Any,
            ctx,
        )) || (n == 1 && all_assigned_meet(pool, a, ci, PipReq::One(color_pip(c)), ctx))),
        ManaCostComponent::PhyrexianColored(c) => (n == 1 && !l && all_assigned_meet(
            pool,
            a,
            ci,
            PipReq::One(color_pip(c)),
            ctx,
        )) || (n == 0 && l),
        ManaCostComponent::PhyrexianHybrid(x, y) => (n == 1 && !l && all_assigned_meet(
            pool,
            a,
            ci,
            PipReq::Either(color_pip(x), color_pip(y)),
            ctx,
        )) || (n == 0 && l),
        ManaCostComponent::X => false,
    }
}

/// Assignment indices are in range and no pool unit is spent twice; life
/// payments name distinct components.
pub open spec fn plan_shape_ok(
    cost: Seq<ManaCostComponent>,
    pool: Seq<ManaUnit>,
    a: Seq<ManaAssignment>,
    life: Seq<usize>,
) -> bool {
    &&& forall|j: int|
        0 <= j < a.len() ==> #[trigger] a[j].pool_index < pool.len() && a[j].cost_index < cost.len()
    &&& forall|j: int, k: int|
        0 <= j < k < a.len() ==> #[trigger] a[j].pool_index != #[trigger] a[k].pool_index
    &&& life.no_duplicates()
    &&& forall|j: int| 0 <= j < life.len() ==> #[trigger] life[j] < cost.len()
}

/// `plan` pays `cost` (which holds no `{X}`) out of `pool` in `ctx`.
pub open spec fn plan_pays(
    cost: Seq<ManaCostComponent>,
    pool: Seq<ManaUnit>,
    ctx: SpendContext,
    plan: ManaPaymentPlan,
) -> bool {
    &&& plan_shape_ok(cost, pool, plan.assignments@, plan.phyrexian_life_payments@)
    &&& forall|ci: int|
        0 <= ci < cost.len() ==> #[trigger] component_paid(
            cost[ci],
            pool,
            plan.assignments@,
            plan.phyrexian_life_payments@,
            ci,
            ctx,
        )
    &&& plan.convoke_creatures@.len() == 0
    &&& plan.delve_cards@.len() == 0
}

/// The cost with every `{X}` replaced by `{x}` generic.
pub open spec fn spec_expand_x(s: Seq<ManaCostComponent>, x: u32) -> Seq<ManaCostComponent> {
    s.map_values(
        |c: ManaCostComponent|
            if c == ManaCostComponent::X {
                ManaCostComponent::Generic(x)
            } else {
                c
            },
    )
}

// =============================================================================
// Lemmas on assignment lists
// =============================================================================

pub proof fn lemma_count_push(a: Seq<ManaAssignment>, x: ManaAssignment, ci: int)
    ensures
        assigned_count(a.push(x), ci) == assigned_count(a, ci) + if x.cost_index == ci {
            1nat
        } else {
            0nat
        },
{
    assert(a.push(x).drop_last() =~= a);
}

pub proof fn lemma_count_zero(a: Seq<ManaAssignment>, ci: int)
    requires
        forall|j: int| 0 <= j < a.len() ==> #[trigger] a[j].cost_index != ci,
    ensures
        assigned_count(a, ci) == 0,
    decreases a.len(),
{
    if a.len() > 0 {
        assert forall|j: int| 0 <= j < a.drop_last().len() implies #[trigger] a.drop_last()[j].cost_index
            != ci by {
            assert(a.drop_last()[j] == a[j]);
        }
        lemma_count_zero(a.drop_last(), ci);
    }
}

pub proof fn lemma_count_zero_inv(a: Seq<ManaAssignment>, ci: int, j: int)
    requires
        assigned_count(a, ci) == 0,
        0 <= j < a.len(),
    ensures
        a[j].cost_index != ci,
    decreases a.len(),
{
    if j < a.len() - 1 {
        assert(a.drop_last()[j] == a[j]);
        lemma_count_zero_inv(a.drop_last(), ci, j);
    }
}

/// Pushing an assignment for another component leaves a component's
/// payment status unchanged.
pub proof fn lemma_paid_push_other(
    comp: ManaCostComponent,
    pool: Seq<ManaUnit>,
    a: Seq<ManaAssignment>,
    life: Seq<usize>,
    ci: int,
    ctx: SpendContext,
    x: ManaAssignment,
)
    requires
        x.cost_index != ci,
    ensures
        component_paid(comp, pool, a.push(x), life, ci, ctx) == component_paid(comp, pool, a, life, ci, ctx),
{
    lemma_count_push(a, x, ci);
    lemma_meet_push_other(pool, a, ci, PipReq::Any, ctx, x);
    lemma_meet_push_other(pool, a, ci, PipReq::One(SpecificPip::Colorless), ctx, x);
    lemma_meet_push_other(pool, a, ci, PipReq::One(SpecificPip::Snow), ctx, x);
    match comp {
        ManaCostComponent::Colored(c) => lemma_meet_push_other(pool, a, ci, PipReq::One(color_pip(c)), ctx, x),
        ManaCostComponent::MonoHybrid(c) => lemma_meet_push_other(pool, a, ci, PipReq::One(color_pip(c)), ctx, x),
        ManaCostComponent::PhyrexianColored(c) => lemma_meet_push_other(pool, a, ci, PipReq::One(color_pip(c)), ctx, x),
        ManaCostComponent::Hybrid(p, q) => lemma_meet_push_other(pool, a, ci, PipReq::Either(color_pip(p), color_pip(q)), ctx, x),
        ManaCostComponent::PhyrexianHybrid(p, q) => lemma_meet_push_other(pool, a, ci, PipReq::Either(color_pip(p), color_pip(q)), ctx, x),
        _ => {},
    }
}

pub proof fn lemma_meet_push_other(
    pool: Seq<ManaUnit>,
    a: Seq<ManaAssignment>,
    ci: int,
    req: PipReq,
    ctx: SpendContext,
    x: ManaAssignment,
)
    requires
        x.cost_index != ci,
    ensures
        all_assigned_meet(pool, a.push(x), ci, req, ctx) == all_assigned_meet(pool, a, ci, req, ctx),
{
    if all_assigned_meet(pool, a, ci, req, ctx) {
        assert forall|j: int| 0 <= j < a.push(x).len() && #[trigger] a.push(x)[j].cost_index == ci implies spec_unit_meets(pool[a.push(x)[j].pool_index as int], req, ctx) by {
            assert(j < a.len());
            assert(a.push(x)[j] == a[j]);
        }
    }
    if all_assigned_meet(pool, a.push(x), ci, req, ctx) {
        assert forall|j: int| 0 <= j < a.len() && #[trigger] a[j].cost_index == ci implies spec_unit_meets(pool[a[j].pool_index as int], req, ctx) by {
            assert(a.push(x)[j] == a[j]);
        }
    }
}

/// Pushing a unit that meets `req` for component `ci` keeps every unit of
/// `ci` meeting `req`.
pub proof fn lemma_meet_push_same(
    pool: Seq<ManaUnit>,
    a: Seq<ManaAssignment>,
    ci: int,
    req: PipReq,
    ctx: SpendContext,
    x: ManaAssignment,
)
    requires
        x.cost_index == ci,
        all_assigned_meet(pool, a, ci, req, ctx),
        spec_unit_meets(pool[x.pool_index as int], req, ctx),
    ensures
        all_assigned_meet(pool, a.push(x), ci, req, ctx),
{
    assert forall|j: int| 0 <= j < a.push(x).len() && #[trigger] a.push(x)[j].cost_index == ci implies spec_unit_meets(pool[a.push(x)[j].pool_index as int], req, ctx) by {
        if j < a.len() {
            assert(a.push(x)[j] == a[j]);
        }
    }
}

/// With no unit yet paying `ci`, every unit trivially meets any `req`.
pub proof fn lemma_meet_empty(pool: Seq<ManaUnit>, a: Seq<ManaAssignment>, ci: int, req: PipReq, ctx: SpendContext)
    requires
        assigned_count(a, ci) == 0,
    ensures
        all_assigned_meet(pool, a, ci, req, ctx),
{
    assert forall|j: int| 0 <= j < a.len() && #[trigger] a[j].cost_index == ci implies spec_unit_meets(pool[a[j].pool_index as int], req, ctx) by {
        lemma_count_zero_inv(a, ci, j);
    }
}

/// `consumed[i]` records whether unit `i` is spent by `a`.
pub open spec fn consumed_ok(consumed: Seq<bool>, pool_len: int, a: Seq<ManaAssignment>) -> bool {
    &&& consumed.len() == pool_len
    &&& forall|i: int|
        0 <= i < pool_len ==> (#[trigger] consumed[i] <==> exists|j: int|
            0 <= j < a.len() && #[trigger] a[j].pool_index == i)
}

/// Adding an assignment of an unconsumed unit keeps the shape valid.
pub proof fn lemma_shape_push(
    cost: Seq<ManaCostComponent>,
    pool: Seq<ManaUnit>,
    a: Seq<ManaAssignment>,
    life: Seq<usize>,
    consumed: Seq<bool>,
    x: ManaAssignment,
)
    requires
        plan_shape_ok(cost, pool, a, life),
        consumed_ok(consumed, pool.len() as int, a),
        x.pool_index < pool.len(),
        x.cost_index < cost.len(),
        !consumed[x.pool_index as int],
    ensures
        plan_shape_ok(cost, pool, a.push(x), life),
        consumed_ok(consumed.update(x.pool_index as int, true), pool.len() as int, a.push(x)),
{
    let b = a.push(x);
    assert forall|j: int, k: int| 0 <= j < k < b.len() implies #[trigger] b[j].pool_index != #[trigger] b[k].pool_index by {
        if k == a.len() {
            assert(b[j] == a[j]);
            if a[j].pool_index == x.pool_index {
                assert(consumed[x.pool_index as int]);
            }
        } else {
            assert(b[j] == a[j]);
            assert(b[k] == a[k]);
        }
    }
    let c2 = consumed.update(x.pool_index as int, true);
    assert forall|i: int| 0 <= i < pool.len() implies (#[trigger] c2[i] <==> exists|j: int|
        0 <= j < b.len() && #[trigger] b[j].pool_index == i) by {
        if i == x.pool_index {
            assert(b[a.len() as int].pool_index == i);
        } else {
            if consumed[i] {
                let j = choose|j: int| 0 <= j < a.len() && #[trigger] a[j].pool_index == i;
                assert(b[j] == a[j]);
            }
            if exists|j: int| 0 <= j < b.len() && #[trigger] b[j].pool_index == i {
                let j = choose|j: int| 0 <= j < b.len() && #[trigger] b[j].pool_index == i;
                assert(j < a.len());
                assert(b[j] == a[j]);
            }
        }
    }
}

// =============================================================================
// Counting what a simple cost needs and what a pool offers
// =============================================================================

/// The color of mana a colored or `{C}` pip needs.
pub open spec fn pip_color(c: ManaCostComponent) -> Option<ManaColor> {
    match c {
        ManaCostComponent::Colored(a) => Some(spec_color_to_mana(a)),
        ManaCostComponent::Colorless => Some(ManaColor::Colorless),
        _ => None,
    }
}

/// Number of pips of `s` needing mana of color `m` (`None`: of any color).
pub open spec fn pips_needing(s: Seq<ManaCostComponent>, m: Option<ManaColor>) -> nat
    decreases s.len(),
{
    if s.len() == 0 {
        0
    } else {
        pips_needing(s.drop_last(), m) + match pip_color(s.last()) {
            Some(c) => if m is None || m == Some(c) {
                1nat
            } else {
                0nat
            },
            None => 0nat,
        }
    }
}

/// Total of the generic pips of `s`.
pub open spec fn generic_total(s: Seq<ManaCostComponent>) -> nat
    decreases s.len(),
{
    if s.len() == 0 {
        0
    } else {
        generic_total(s.drop_last()) + match s.last() {
            ManaCostComponent::Generic(n) => n as nat,
            _ => 0nat,
        }
    }
}

/// `s` has a `{S}` pip.
pub open spec fn has_snow_pip(s: Seq<ManaCostComponent>) -> bool {
    exists|i: int| 0 <= i < s.len() && s[i] == ManaCostComponent::Snow
}

/// `u` is spendable in `ctx` and of color `m` (`None`: any color).
pub open spec fn spendable_of(u: ManaUnit, ctx: SpendContext, m: Option<ManaColor>) -> bool {
    spec_spendable(u, ctx) && (m matches Some(c) ==> u.color == c)
}

/// Units among the first `n` of `pool` that are marked in `taken`,
/// spendable and of color `m`.
pub open spec fn taken_count(pool: Seq<ManaUnit>, taken: Seq<bool>, ctx: SpendContext, m: Option<ManaColor>, n: int) -> nat
    decreases n,
{
    if n <= 0 {
        0
    } else {
        taken_count(pool, taken, ctx, m, n - 1) + if taken[n - 1] && spendable_of(pool[n - 1], ctx, m) {
            1nat
        } else {
            0nat
        }
    }
}

/// Units of `pool` spendable in `ctx` and of color `m`.
pub open spec fn spendable_count(pool: Seq<ManaUnit>, ctx: SpendContext, m: Option<ManaColor>) -> nat {
    taken_count(pool, Seq::new(pool.len(), |i: int| true), ctx, m, pool.len() as int)
}

/// The pool holds enough spendable mana for the simple cost `s`: enough of
/// each color for the colored and `{C}` pips, and enough in all for every
/// pip.
pub open spec fn simple_affordable(s: Seq<ManaCostComponent>, pool: Seq<ManaUnit>, ctx: SpendContext) -> bool {
    &&& forall|m: ManaColor| #[trigger] pips_needing(s, Some(m)) <= spendable_count(pool, ctx, Some(m))
    &&& pips_needing(s, None) + generic_total(s) <= spendable_count(pool, ctx, None)
}

/// Marking one more unit adds it to the counts it belongs to.
proof fn lemma_taken_mark(pool: Seq<ManaUnit>, taken: Seq<bool>, ctx: SpendContext, m: Option<ManaColor>, n: int, i: int)
    requires
        0 <= i < n <= taken.len(),
        n <= pool.len(),
        !taken[i],
    ensures
        taken_count(pool, taken.update(i, true), ctx, m, n) == taken_count(pool, taken, ctx, m, n) + if spendable_of(
            pool[i],
            ctx,
            m,
        ) {
            1nat
        } else {
            0nat
        },
    decreases n,
{
    if n - 1 > i {
        lemma_taken_mark(pool, taken, ctx, m, n - 1, i);
    } else {
        lemma_taken_same(pool, taken.update(i, true), taken, ctx, m, n - 1);
    }
}

/// Counts agree where the markings agree.
proof fn lemma_taken_same(pool: Seq<ManaUnit>, t1: Seq<bool>, t2: Seq<bool>, ctx: SpendContext, m: Option<ManaColor>, n: int)
    requires
        n <= t1.len(),
        n <= t2.len(),
        forall|j: int| 0 <= j < n ==> t1[j] == t2[j],
    ensures
        taken_count(pool, t1, ctx, m, n) == taken_count(pool, t2, ctx, m, n),
    decreases n,
{
    if n > 0 {
        lemma_taken_same(pool, t1, t2, ctx, m, n - 1);
    }
}

/// Marked units never outnumber the spendable ones; when every spendable
/// unit of the color is marked the counts are equal.
proof fn lemma_taken_bound(pool: Seq<ManaUnit>, taken: Seq<bool>, ctx: SpendContext, m: Option<ManaColor>, n: int)
    requires
        0 <= n <= pool.len(),
        n <= taken.len(),
    ensures
        taken_count(pool, taken, ctx, m, n) <= taken_count(pool, Seq::new(pool.len(), |i: int| true), ctx, m, n),
        (forall|j: int| 0 <= j < n && spendable_of(pool[j], ctx, m) ==> #[trigger] taken[j]) ==> taken_count(
            pool,
            taken,
            ctx,
            m,
            n,
        ) == taken_count(pool, Seq::new(pool.len(), |i: int| true), ctx, m, n),
    decreases n,
{
    if n > 0 {
        lemma_taken_bound(pool, taken, ctx, m, n - 1);
    }
}

/// Nothing marked, nothing counted.
proof fn lemma_taken_none(pool: Seq<ManaUnit>, taken: Seq<bool>, ctx: SpendContext, m: Option<ManaColor>, n: int)
    requires
        n <= taken.len(),
        forall|j: int| 0 <= j < n ==> !taken[j],
    ensures
        taken_count(pool, taken, ctx, m, n) == 0,
    decreases n,
{
    if n > 0 {
        lemma_taken_none(pool, taken, ctx, m, n - 1);
    }
}

/// A prefix needs no more than the whole.
pub proof fn lemma_pips_prefix(s: Seq<ManaCostComponent>, m: Option<ManaColor>, k: int)
    requires
        0 <= k <= s.len(),
    ensures
        pips_needing(s.take(k), m) <= pips_needing(s, m),
        generic_total(s.take(k)) <= generic_total(s),
    decreases s.len() - k,
{
    if k < s.len() {
        lemma_pips_prefix(s, m, k + 1);
        assert(s.take(k + 1).drop_last() =~= s.take(k));
    } else {
        assert(s.take(k) =~= s);
    }
}

/// One more component of a prefix.
proof fn lemma_prefix_step(s: Seq<ManaCostComponent>, k: int)
    requires
        0 <= k < s.len(),
    ensures
        s.take(k + 1).drop_last() == s.take(k),
        s.take(k + 1).last() == s[k],
{
    assert(s.take(k + 1).drop_last() =~= s.take(k));
}

// =============================================================================
// Tier 1: greedy solver for simple costs
// =============================================================================

/// First unconsumed unit meeting `req`.
fn find_unit(pool: &ManaPool, consumed: &Vec<bool>, req: PipReq, ctx: &SpendContext) -> (r: Option<usize>)
    requires
        consumed@.len() == pool.pool@.len(),
    ensures
        r matches Some(i) ==> i < pool.pool@.len() && !consumed@[i as int] && spec_unit_meets(
            pool.pool@[i as int],
            req,
            *ctx,
        ),
        r is None ==> forall|i: int|
            0 <= i < pool.pool@.len() ==> consumed@[i] || !spec_unit_meets(pool.pool@[i], req, *ctx),
{
    let mut i: usize = 0;
    while i < pool.pool.len()
        invariant
            i <= pool.pool@.len(),
            consumed@.len() == pool.pool@.len(),
            forall|k: int| 0 <= k < i ==> consumed@[k] || !spec_unit_meets(pool.pool@[k], req, *ctx),
        decreases pool.pool@.len() - i,
    {
        if !consumed[i] {
            let u = &pool.pool[i];
            let ok = match req {
                PipReq::Any => unit_is_spendable(u, ctx),
                PipReq::One(p) => unit_matches_specific(u, p, ctx),
                PipReq::Either(p, q) => unit_matches_specific(u, p, ctx) || unit_matches_specific(u, q, ctx),
            };
            if ok {
                return Some(i);
            }
        }
        i = i + 1;
    }
    None
}

/// Greedy solver for costs with only Generic / Colored / Colorless / Snow
/// pips: pays the specific pips first (each with the first matching unit),
/// then the generic pips. `None` when a pip finds no unit.
fn greedy_simple_pay(cost: &ManaCost, pool: &ManaPool, ctx: &SpendContext) -> (r: Option<ManaPaymentPlan>)
    requires
        forall|i: int| 0 <= i < cost.components@.len() ==> #[trigger] spec_is_simple(cost.components@[i]),
    ensures
        r matches Some(p) ==> plan_pays(cost.components@, pool.pool@, *ctx, p),
        !has_snow_pip(cost.components@) ==> (r is Some <==> simple_affordable(cost.components@, pool.pool@, *ctx)),
{
    let ghost cs = cost.components@;
    let ghost ps = pool.pool@;
    let mut plan = ManaPaymentPlan::empty();
    let mut consumed: Vec<bool> = Vec::new();
    let mut z: usize = 0;
    while z < pool.pool.len()
        invariant
            z <= ps.len(),
            ps == pool.pool@,
            consumed@.len() == z,
            forall|i: int| 0 <= i < z ==> !consumed@[i],
        decreases ps.len() - z,
    {
        consumed.push(false);
        z = z + 1;
    }
    proof {
        assert forall|ci: int| 0 <= ci < cs.len() implies assigned_count(plan.assignments@, ci) == 0 by {
            lemma_count_zero(plan.assignments@, ci);
        }
        assert(cs.take(0) =~= Seq::<ManaCostComponent>::empty());
        assert forall|m: Option<ManaColor>| #[trigger] taken_count(ps, consumed@, *ctx, m, ps.len() as int)
            == pips_needing(cs.take(0), m) by {
            lemma_taken_none(ps, consumed@, *ctx, m, ps.len() as int);
        }
    }
    // Pass 1: specific pips.
    let mut ci: usize = 0;
    while ci < cost.components.len()
        invariant
            cs == cost.components@,
            ps == pool.pool@,
            forall|i: int| 0 <= i < cs.len() ==> #[trigger] spec_is_simple(cs[i]),
            ci <= cs.len(),
            plan_shape_ok(cs, ps, plan.assignments@, plan.phyrexian_life_payments@),
            consumed_ok(consumed@, ps.len() as int, plan.assignments@),
            plan.phyrexian_life_payments@.len() == 0,
            plan.convoke_creatures@.len() == 0,
            plan.delve_cards@.len() == 0,
            forall|i: int| 0 <= i < ps.len() && #[trigger] consumed@[i] ==> spec_spendable(ps[i], *ctx),
            !has_snow_pip(cs) ==> forall|m: Option<ManaColor>| #[trigger] taken_count(
                ps,
                consumed@,
                *ctx,
                m,
                ps.len() as int,
            ) == pips_needing(cs.take(ci as int), m),
            forall|c: int|
                0 <= c < cs.len() && c < ci && !(cs[c] is Generic) ==> #[trigger] component_paid(
                    cs[c],
                    ps,
                    plan.assignments@,
                    plan.phyrexian_life_payments@,
                    c,
                    *ctx,
                ),
            forall|c: int|
                0 <= c < cs.len() && !(c < ci && !(cs[c] is Generic)) ==> #[trigger] assigned_count(
                    plan.assignments@,
                    c,
                ) == 0,
        decreases cs.len() - ci,
    {
        let comp = cost.components[ci];
        proof {
            assert(spec_is_simple(cs[ci as int]));
        }
        let req = match comp {
            ManaCostComponent::Colored(c) => Some(PipReq::One(SpecificPip::Color(c.to_mana()))),
            ManaCostComponent::Colorless => Some(PipReq::One(SpecificPip::Colorless)),
            ManaCostComponent::Snow => Some(PipReq::One(SpecificPip::Snow)),
            _ => None,
        };
        proof {
            lemma_prefix_step(cs, ci as int);
        }
        if let Some(rq) = req {
            let pos = find_unit(pool, &consumed, rq, ctx);
            match pos {
                None => {
                    proof {
                        if !has_snow_pip(cs) {
                            let m0 = pip_color(cs[ci as int])->0;
                            assert(cs[ci as int] != ManaCostComponent::Snow);
                            assert forall|j: int| 0 <= j < ps.len() as int && spendable_of(ps[j], *ctx, Some(m0)) implies #[trigger] consumed@[j] by {
                                assert(spec_unit_meets(ps[j], rq, *ctx));
                            }
                            lemma_taken_bound(ps, consumed@, *ctx, Some(m0), ps.len() as int);
                            lemma_pips_prefix(cs, Some(m0), ci + 1);
                            assert(pips_needing(cs, Some(m0)) > spendable_count(ps, *ctx, Some(m0)));
                        }
                    }
                    return None;
                },
                Some(i) => {
                    let x = ManaAssignment { pool_index: i, cost_index: ci };
                    let ghost a0 = plan.assignments@;
                    let ghost c0 = consumed@;
                    proof {
                        lemma_shape_push(cs, ps, a0, plan.phyrexian_life_payments@, consumed@, x);
                    }
                    consumed.set(i, true);
                    proof {
                        assert forall|m: Option<ManaColor>| #[trigger] taken_count(ps, consumed@, *ctx, m, ps.len() as int)
                            == taken_count(ps, c0, *ctx, m, ps.len() as int) + if spendable_of(ps[i as int], *ctx, m) {
                            1nat
                        } else {
                            0nat
                        } by {
                            lemma_taken_mark(ps, c0, *ctx, m, ps.len() as int, i as int);
                        }
                        if !has_snow_pip(cs) {
                            assert(cs[ci as int] != ManaCostComponent::Snow);
                        }
                    }
                    plan.assignments.push(x);
                    proof {
                        assert(assigned_count(a0, ci as int) == 0);
                        lemma_meet_empty(ps, a0, ci as int, rq, *ctx);
                        lemma_meet_push_same(ps, a0, ci as int, rq, *ctx, x);
                        lemma_count_push(a0, x, ci as int);
                        assert(!plan.phyrexian_life_payments@.contains(ci));
                        assert(component_paid(cs[ci as int], ps, plan.assignments@, plan.phyrexian_life_payments@, ci as int, *ctx));
                        assert forall|c: int| 0 <= c < cs.len() && c < ci + 1 && !(cs[c] is Generic) implies #[trigger] component_paid(cs[c], ps, plan.assignments@, plan.phyrexian_life_payments@, c, *ctx) by {
                            if c != ci {
                                lemma_paid_push_other(cs[c], ps, a0, plan.phyrexian_life_payments@, c, *ctx, x);
                            }
                        }
                        assert forall|c: int| 0 <= c < cs.len() && !(c < ci + 1 && !(cs[c] is Generic)) implies #[trigger] assigned_count(plan.assignments@, c) == 0 by {
                            lemma_count_push(a0, x, c);
                        }
                    }
                },
            }
        }
        ci = ci + 1;
    }
    // Pass 2: generic pips.
    proof {
        assert forall|c: int| 0 <= c < cs.len() && (c < 0 || !(cs[c] is Generic)) implies #[trigger] component_paid(cs[c], ps, plan.assignments@, plan.phyrexian_life_payments@, c, *ctx) by {
            assert(c < ci && !(cs[c] is Generic));
        }
        assert(cs.take(ci as int) =~= cs);
        assert(cs.take(0) =~= Seq::<ManaCostComponent>::empty());
        if !has_snow_pip(cs) {
            assert forall|m: ManaColor| #[trigger] pips_needing(cs, Some(m)) <= spendable_count(ps, *ctx, Some(m)) by {
                lemma_taken_bound(ps, consumed@, *ctx, Some(m), ps.len() as int);
                assert(taken_count(ps, consumed@, *ctx, Some(m), ps.len() as int) == pips_needing(cs.take(ci as int), Some(m)));
            }
            assert(taken_count(ps, consumed@, *ctx, None, ps.len() as int) == pips_needing(cs.take(ci as int), None));
        }
    }
    let mut ci: usize = 0;
    while ci < cost.components.len()
        invariant
            cs == cost.components@,
            ps == pool.pool@,
            forall|i: int| 0 <= i < cs.len() ==> #[trigger] spec_is_simple(cs[i]),
            ci <= cs.len(),
            plan_shape_ok(cs, ps, plan.assignments@, plan.phyrexian_life_payments@),
            consumed_ok(consumed@, ps.len() as int, plan.assignments@),
            plan.phyrexian_life_payments@.len() == 0,
            plan.convoke_creatures@.len() == 0,
            plan.delve_cards@.len() == 0,
            forall|i: int| 0 <= i < ps.len() && #[trigger] consumed@[i] ==> spec_spendable(ps[i], *ctx),
            !has_snow_pip(cs) ==> forall|m: ManaColor| #[trigger] pips_needing(cs, Some(m)) <= spendable_count(
                ps,
                *ctx,
                Some(m),
            ),
            !has_snow_pip(cs) ==> taken_count(ps, consumed@, *ctx, None, ps.len() as int) == pips_needing(cs, None)
                + generic_total(cs.take(ci as int)),
            forall|c: int|
                0 <= c < cs.len() && (c < ci || !(cs[c] is Generic)) ==> #[trigger] component_paid(
                    cs[c],
                    ps,
                    plan.assignments@,
                    plan.phyrexian_life_payments@,
                    c,
                    *ctx,
                ),
            forall|c: int|
                0 <= c < cs.len() && !(c < ci || !(cs[c] is Generic)) ==> #[trigger] assigned_count(
                    plan.assignments@,
                    c,
                ) == 0,
        decreases cs.len() - ci,
    {
        let comp = cost.components[ci];
        proof {
            lemma_prefix_step(cs, ci as int);
        }
        if let ManaCostComponent::Generic(n) = comp {
            let mut k: u32 = 0;
            proof {
                assert(assigned_count(plan.assignments@, ci as int) == 0);
                lemma_meet_empty(ps, plan.assignments@, ci as int, PipReq::Any, *ctx);
            }
            while k < n
                invariant
                    cs == cost.components@,
                    ps == pool.pool@,
                    ci < cs.len(),
                    cs[ci as int] == ManaCostComponent::Generic(n),
                    k <= n,
                    plan_shape_ok(cs, ps, plan.assignments@, plan.phyrexian_life_payments@),
                    consumed_ok(consumed@, ps.len() as int, plan.assignments@),
                    plan.phyrexian_life_payments@.len() == 0,
                    plan.convoke_creatures@.len() == 0,
                    plan.delve_cards@.len() == 0,
                    forall|i: int| 0 <= i < ps.len() && #[trigger] consumed@[i] ==> spec_spendable(ps[i], *ctx),
                    !has_snow_pip(cs) ==> forall|m: ManaColor| #[trigger] pips_needing(cs, Some(m)) <= spendable_count(
                        ps,
                        *ctx,
                        Some(m),
                    ),
                    !has_snow_pip(cs) ==> taken_count(ps, consumed@, *ctx, None, ps.len() as int) == pips_needing(
                        cs,
                        None,
                    ) + generic_total(cs.take(ci as int)) + k,
                    generic_total(cs.take(ci + 1)) == generic_total(cs.take(ci as int)) + n,
                    assigned_count(plan.assignments@, ci as int) == k,
                    all_assigned_meet(ps, plan.assignments@, ci as int, PipReq::Any, *ctx),
                    forall|c: int|
                        0 <= c < cs.len() && c != ci && (c < ci || !(cs[c] is Generic)) ==> #[trigger] component_paid(
                            cs[c],
                            ps,
                            plan.assignments@,
                            plan.phyrexian_life_payments@,
                            c,
                            *ctx,
                        ),
                    forall|c: int|
                        0 <= c < cs.len() && c != ci && !(c < ci || !(cs[c] is Generic)) ==> #[trigger] assigned_count(
                            plan.assignments@,
                            c,
                        ) == 0,
                decreases n - k,
            {
                let pos = find_unit(pool, &consumed, PipReq::Any, ctx);
                match pos {
                    None => {
                        proof {
                            if !has_snow_pip(cs) {
                                assert forall|j: int| 0 <= j < ps.len() as int && spendable_of(ps[j], *ctx, None) implies #[trigger] consumed@[j] by {
                                    assert(spec_unit_meets(ps[j], PipReq::Any, *ctx));
                                }
                                lemma_taken_bound(ps, consumed@, *ctx, None, ps.len() as int);
                                lemma_pips_prefix(cs, None, ci + 1);
                            }
                        }
                        return None;
                    },
                    Some(i) => {
                        let x = ManaAssignment { pool_index: i, cost_index: ci };
                        let ghost a0 = plan.assignments@;
                        let ghost c0 = consumed@;
                        proof {
                            lemma_shape_push(cs, ps, a0, plan.phyrexian_life_payments@, consumed@, x);
                            lemma_count_push(a0, x, ci as int);
                            lemma_meet_push_same(ps, a0, ci as int, PipReq::Any, *ctx, x);
                        }
                        consumed.set(i, true);
                        proof {
                            lemma_taken_mark(ps, c0, *ctx, None, ps.len() as int, i as int);
                        }
                        plan.assignments.push(x);
                        proof {
                            assert forall|c: int| 0 <= c < cs.len() && c != ci && (c < ci || !(cs[c] is Generic)) implies #[trigger] component_paid(cs[c], ps, plan.assignments@, plan.phyrexian_life_payments@, c, *ctx) by {
                                lemma_paid_push_other(cs[c], ps, a0, plan.phyrexian_life_payments@, c, *ctx, x);
                            }
                            assert forall|c: int| 0 <= c < cs.len() && c != ci && !(c < ci || !(cs[c] is Generic)) implies #[trigger] assigned_count(plan.assignments@, c) == 0 by {
                                lemma_count_push(a0, x, c);
                            }
                        }
                    },
                }
                k = k + 1;
            }
            proof {
                assert(component_paid(cs[ci as int], ps, plan.assignments@, plan.phyrexian_life_payments@, ci as int, *ctx));
            }
        }
        ci = ci + 1;
    }
    proof {
        assert(plan.phyrexian_life_payments@ =~= Seq::<usize>::empty());
        assert(cs.take(ci as int) =~= cs);
        if !has_snow_pip(cs) {
            lemma_taken_bound(ps, consumed@, *ctx, None, ps.len() as int);
        }
    }
    Some(plan)
}

// =============================================================================
// Tier 2: backtracking
// =============================================================================

/// One unit matching `pip` is a full payment of `comp`.
pub open spec fn pip_pays(comp: ManaCostComponent, pip: SpecificPip) -> bool {
    match comp {
        ManaCostComponent::Colored(c) => pip == color_pip(c),
        ManaCostComponent::Colorless => pip == SpecificPip::Colorless,
        ManaCostComponent::Snow => pip == SpecificPip::Snow,
        ManaCostComponent::Hybrid(x, y) => pip == color_pip(x) || pip == color_pip(y),
        ManaCostComponent::MonoHybrid(c) => pip == color_pip(c),
        ManaCostComponent::PhyrexianColored(c) => pip == color_pip(c),
        ManaCostComponent::PhyrexianHybrid(x, y) => pip == color_pip(x) || pip == color_pip(y),
        _ => false,
    }
}

/// `need` generic units pay `comp` (a generic or a monohybrid pip paid
/// with 2).
pub open spec fn need_pays(comp: ManaCostComponent, need: u32) -> bool {
    match comp {
        ManaCostComponent::Generic(n) => need == n,
        ManaCostComponent::MonoHybrid(_) => need == 2,
        _ => false,
    }
}

/// Deferred generic buckets `(cost index, units needed)`: increasing cost
/// indices below `k`, each bucket paying its component.
pub open spec fn buckets_ok(cost: Seq<ManaCostComponent>, buckets: Seq<(usize, u32)>, k: int) -> bool {
    &&& forall|b: int|
        0 <= b < buckets.len() ==> #[trigger] buckets[b].0 < k && buckets[b].0 < cost.len() && need_pays(
            cost[buckets[b].0 as int],
            buckets[b].1,
        )
    &&& forall|b1: int, b2: int|
        0 <= b1 < b2 < buckets.len() ==> #[trigger] buckets[b1].0 < #[trigger] buckets[b2].0
}

/// Component `ci` waits in one of the buckets from position `from` on.
pub open spec fn bucketed_from(buckets: Seq<(usize, u32)>, from: int, ci: int) -> bool {
    exists|b: int| from <= b < buckets.len() && #[trigger] buckets[b].0 == ci
}

/// Nothing pays component `ci` yet.
pub open spec fn unpaid(a: Seq<ManaAssignment>, life: Seq<usize>, ci: int) -> bool {
    assigned_count(a, ci) == 0 && !life.contains(ci as usize)
}

/// State of the specific-pip walk at component `k`: components before `k`
/// are paid or wait in a bucket; the rest are untouched.
pub open spec fn walk_ok(
    cost: Seq<ManaCostComponent>,
    pool: Seq<ManaUnit>,
    ctx: SpendContext,
    a: Seq<ManaAssignment>,
    life: Seq<usize>,
    buckets: Seq<(usize, u32)>,
    k: int,
) -> bool {
    &&& 0 <= k <= cost.len()
    &&& plan_shape_ok(cost, pool, a, life)
    &&& buckets_ok(cost, buckets, k)
    &&& forall|ci: int|
        0 <= ci < cost.len() && (ci >= k || bucketed_from(buckets, 0, ci)) ==> #[trigger] unpaid(a, life, ci)
    &&& forall|ci: int|
        0 <= ci < cost.len() && ci < k && !bucketed_from(buckets, 0, ci) ==> #[trigger] component_paid(
            cost[ci],
            pool,
            a,
            life,
            ci,
            ctx,
        )
}

/// State of the generic distribution at bucket `b`: the components of the
/// buckets from `b` on are unpaid, every other component is paid.
pub open spec fn fill_ok(
    cost: Seq<ManaCostComponent>,
    pool: Seq<ManaUnit>,
    ctx: SpendContext,
    a: Seq<ManaAssignment>,
    life: Seq<usize>,
    buckets: Seq<(usize, u32)>,
    b: int,
) -> bool {
    &&& 0 <= b <= buckets.len()
    &&& plan_shape_ok(cost, pool, a, life)
    &&& buckets_ok(cost, buckets, cost.len() as int)
    &&& forall|ci: int|
        0 <= ci < cost.len() && bucketed_from(buckets, b, ci) ==> #[trigger] unpaid(a, life, ci)
    &&& forall|ci: int|
        0 <= ci < cost.len() && !bucketed_from(buckets, b, ci) ==> #[trigger] component_paid(
            cost[ci],
            pool,
            a,
            life,
            ci,
            ctx,
        )
}

/// State while filling bucket `b`: the buckets after `b` are unpaid, the
/// components outside the buckets from `b` on are paid.
pub open spec fn fill_mid_ok(
    cost: Seq<ManaCostComponent>,
    pool: Seq<ManaUnit>,
    ctx: SpendContext,
    a: Seq<ManaAssignment>,
    life: Seq<usize>,
    buckets: Seq<(usize, u32)>,
    b: int,
) -> bool {
    &&& 0 <= b < buckets.len()
    &&& plan_shape_ok(cost, pool, a, life)
    &&& buckets_ok(cost, buckets, cost.len() as int)
    &&& forall|ci: int|
        0 <= ci < cost.len() && bucketed_from(buckets, b + 1, ci) ==> #[trigger] unpaid(a, life, ci)
    &&& forall|ci: int|
        0 <= ci < cost.len() && !bucketed_from(buckets, b, ci) ==> #[trigger] component_paid(
            cost[ci],
            pool,
            a,
            life,
            ci,
            ctx,
        )
}

/// The plans from position `start` on all pay the cost, and the ones
/// before are those of `before`.
pub open spec fn plans_grown(
    cost: Seq<ManaCostComponent>,
    pool: Seq<ManaUnit>,
    ctx: SpendContext,
    before: Seq<ManaPaymentPlan>,
    after: Seq<ManaPaymentPlan>,
) -> bool {
    &&& after.len() >= before.len()
    &&& forall|j: int| 0 <= j < before.len() ==> #[trigger] after[j] == before[j]
    &&& forall|j: int| before.len() <= j < after.len() ==> #[trigger] plan_pays(cost, pool, ctx, after[j])
}

pub proof fn lemma_plans_grown_trans(
    cost: Seq<ManaCostComponent>,
    pool: Seq<ManaUnit>,
    ctx: SpendContext,
    p1: Seq<ManaPaymentPlan>,
    p2: Seq<ManaPaymentPlan>,
    p3: Seq<ManaPaymentPlan>,
)
    requires
        plans_grown(cost, pool, ctx, p1, p2),
        plans_grown(cost, pool, ctx, p2, p3),
    ensures
        plans_grown(cost, pool, ctx, p1, p3),
{
    assert forall|j: int| p1.len() <= j < p3.len() implies #[trigger] plan_pays(cost, pool, ctx, p3[j]) by {
        if j < p2.len() {
            assert(p3[j] == p2[j]);
        }
    }
}

pub proof fn lemma_single_pays(
    comp: ManaCostComponent,
    pool: Seq<ManaUnit>,
    a: Seq<ManaAssignment>,
    life: Seq<usize>,
    ci: int,
    ctx: SpendContext,
    pip: SpecificPip,
)
    requires
        pip_pays(comp, pip),
        assigned_count(a, ci) == 1,
        !life.contains(ci as usize),
        all_assigned_meet(pool, a, ci, PipReq::One(pip), ctx),
    ensures
        component_paid(comp, pool, a, life, ci, ctx),
{
    match comp {
        ManaCostComponent::Hybrid(x, y) => {
            assert forall|j: int| 0 <= j < a.len() && #[trigger] a[j].cost_index == ci implies spec_unit_meets(pool[a[j].pool_index as int], PipReq::Either(color_pip(x), color_pip(y)), ctx) by {
                assert(spec_unit_meets(pool[a[j].pool_index as int], PipReq::One(pip), ctx));
            }
        },
        ManaCostComponent::PhyrexianHybrid(x, y) => {
            assert forall|j: int| 0 <= j < a.len() && #[trigger] a[j].cost_index == ci implies spec_unit_meets(pool[a[j].pool_index as int], PipReq::Either(color_pip(x), color_pip(y)), ctx) by {
                assert(spec_unit_meets(pool[a[j].pool_index as int], PipReq::One(pip), ctx));
            }
        },
        _ => {},
    }
}

/// Adding an assignment to component `ci` keeps every other component's
/// status.
pub proof fn lemma_others_after_push(
    cost: Seq<ManaCostComponent>,
    pool: Seq<ManaUnit>,
    ctx: SpendContext,
    a: Seq<ManaAssignment>,
    life: Seq<usize>,
    x: ManaAssignment,
)
    ensures
        forall|c: int| c != x.cost_index ==> #[trigger] unpaid(a.push(x), life, c) == unpaid(a, life, c),
        forall|c: int|
            0 <= c < cost.len() && c != x.cost_index ==> #[trigger] component_paid(cost[c], pool, a.push(x), life, c, ctx)
                == component_paid(cost[c], pool, a, life, c, ctx),
{
    assert forall|c: int| c != x.cost_index implies #[trigger] unpaid(a.push(x), life, c) == unpaid(a, life, c) by {
        lemma_count_push(a, x, c);
    }
    assert forall|c: int|
        0 <= c < cost.len() && c != x.cost_index implies #[trigger] component_paid(cost[c], pool, a.push(x), life, c, ctx)
            == component_paid(cost[c], pool, a, life, c, ctx) by {
        lemma_paid_push_other(cost[c], pool, a, life, c, ctx, x);
    }
}

/// Walk the cost components from `cost_idx` on. Choice-bearing components
/// branch over their possible payments; generic-like ones are deferred to
/// a bucket. At the end, [`distribute_generic`] fills the buckets.
#[verifier::rlimit(60)]
fn backtrack_specific(
    cost: &ManaCost,
    pool: &ManaPool,
    ctx: &SpendContext,
    consumed: &mut Vec<bool>,
    plan: &mut ManaPaymentPlan,
    buckets: &mut Vec<(usize, u32)>,
    cost_idx: usize,
    plans: &mut Vec<ManaPaymentPlan>,
)
    requires
        walk_ok(cost.components@, pool.pool@, *ctx, old(plan).assignments@, old(plan).phyrexian_life_payments@, old(buckets)@, cost_idx as int),
        consumed_ok(old(consumed)@, pool.pool@.len() as int, old(plan).assignments@),
        old(plan).convoke_creatures@.len() == 0,
        old(plan).delve_cards@.len() == 0,
        forall|i: int| 0 <= i < cost.components@.len() ==> cost.components@[i] != ManaCostComponent::X,
    ensures
        final(consumed)@ == old(consumed)@,
        final(plan).assignments@ == old(plan).assignments@,
        final(plan).phyrexian_life_payments@ == old(plan).phyrexian_life_payments@,
        final(plan).convoke_creatures@ == old(plan).convoke_creatures@,
        final(plan).delve_cards@ == old(plan).delve_cards@,
        final(buckets)@ == old(buckets)@,
        plans_grown(cost.components@, pool.pool@, *ctx, old(plans)@, final(plans)@),
        forall|p: ManaPaymentPlan| #[trigger] follows_walk(cost.components@, pool.pool@, *ctx, p, old(plan).assignments@, old(plan).phyrexian_life_payments@, old(buckets)@, cost_idx as int) ==> found_in(p, final(plans)@, old(plans)@.len() as int),
    decreases cost.components@.len() - cost_idx, 3nat, 0nat, 0nat, 0nat,
{
    let ghost cs = cost.components@;
    let ghost ps = pool.pool@;
    let ghost pl_start = plans@;
    if cost_idx >= cost.components.len() {
        distribute_generic(cost, pool, ctx, consumed, plan, buckets, 0, plans);
        proof {
            assert forall|p: ManaPaymentPlan| #[trigger] follows_walk(cs, ps, *ctx, p, plan.assignments@, plan.phyrexian_life_payments@, buckets@, cost_idx as int)
                implies found_in(p, plans@, pl_start.len() as int) by {
                lemma_walk_done(cs, ps, *ctx, p, plan.assignments@, plan.phyrexian_life_payments@, buckets@);
            }
        }
        return;
    }
    let comp = cost.components[cost_idx];
    let ghost a0 = plan.assignments@;
    let ghost l0 = plan.phyrexian_life_payments@;
    let ghost b0 = buckets@;
    proof {
        assert(unpaid(a0, l0, cost_idx as int));
        assert(!bucketed_from(b0, 0, cost_idx as int)) by {
            if bucketed_from(b0, 0, cost_idx as int) {
                let b = choose|b: int| 0 <= b < b0.len() && #[trigger] b0[b].0 == cost_idx;
                assert(b0[b].0 < cost_idx);
            }
        }
    }
    match comp {
        ManaCostComponent::Generic(n) => {
            defer_bucket(cost, pool, ctx, consumed, plan, buckets, cost_idx, n, plans);
        },
        ManaCostComponent::Colored(c) => {
            branch_specific_pip(cost, pool, ctx, consumed, plan, buckets, cost_idx, SpecificPip::Color(c.to_mana()), plans);
        },
        ManaCostComponent::Colorless => {
            branch_specific_pip(cost, pool, ctx, consumed, plan, buckets, cost_idx, SpecificPip::Colorless, plans);
        },
        ManaCostComponent::Snow => {
            branch_specific_pip(cost, pool, ctx, consumed, plan, buckets, cost_idx, SpecificPip::Snow, plans);
        },
        ManaCostComponent::Hybrid(x, y) => {
            let ghost p0 = plans@;
            branch_specific_pip(cost, pool, ctx, consumed, plan, buckets, cost_idx, SpecificPip::Color(x.to_mana()), plans);
            if x != y {
                let ghost p1 = plans@;
                branch_specific_pip(cost, pool, ctx, consumed, plan, buckets, cost_idx, SpecificPip::Color(y.to_mana()), plans);
                proof {
                    lemma_plans_grown_trans(cs, ps, *ctx, p0, p1, plans@);
                    assert forall|p: ManaPaymentPlan| #[trigger] follows_walk(cs, ps, *ctx, p, a0, l0, b0, cost_idx as int)
                        implies found_in(p, plans@, p0.len() as int) by {
                        lemma_payment_choice(cs, ps, *ctx, p, cost_idx);
                        if found_in(p, p1, p0.len() as int) {
                            lemma_found_grown(p, p1, plans@, p0.len() as int);
                        } else {
                            lemma_found_from(p, plans@, p0.len() as int, p1.len() as int);
                        }
                    }
                }
            }
        },
        ManaCostComponent::MonoHybrid(c) => {
            let ghost p0 = plans@;
            defer_bucket(cost, pool, ctx, consumed, plan, buckets, cost_idx, 2, plans);
            let ghost p1 = plans@;
            branch_specific_pip(cost, pool, ctx, consumed, plan, buckets, cost_idx, SpecificPip::Color(c.to_mana()), plans);
            proof {
                lemma_plans_grown_trans(cs, ps, *ctx, p0, p1, plans@);
                assert forall|p: ManaPaymentPlan| #[trigger] follows_walk(cs, ps, *ctx, p, a0, l0, b0, cost_idx as int)
                    implies found_in(p, plans@, p0.len() as int) by {
                    lemma_payment_choice(cs, ps, *ctx, p, cost_idx);
                    if found_in(p, p1, p0.len() as int) {
                        lemma_found_grown(p, p1, plans@, p0.len() as int);
                    } else {
                        lemma_found_from(p, plans@, p0.len() as int, p1.len() as int);
                    }
                }
            }
        },
        ManaCostComponent::PhyrexianColored(c) => {
            let ghost p0 = plans@;
            branch_specific_pip(cost, pool, ctx, consumed, plan, buckets, cost_idx, SpecificPip::Color(c.to_mana()), plans);
            let ghost p1 = plans@;
            pay_with_life(cost, pool, ctx, consumed, plan, buckets, cost_idx, plans);
            proof {
                lemma_plans_grown_trans(cs, ps, *ctx, p0, p1, plans@);
                assert forall|p: ManaPaymentPlan| #[trigger] follows_walk(cs, ps, *ctx, p, a0, l0, b0, cost_idx as int)
                    implies found_in(p, plans@, p0.len() as int) by {
                    lemma_payment_choice(cs, ps, *ctx, p, cost_idx);
                    if found_in(p, p1, p0.len() as int) {
                        lemma_found_grown(p, p1, plans@, p0.len() as int);
                    } else {
                        lemma_found_from(p, plans@, p0.len() as int, p1.len() as int);
                    }
                }
            }
        },
        ManaCostComponent::PhyrexianHybrid(x, y) => {
            let ghost p0 = plans@;
            branch_specific_pip(cost, pool, ctx, consumed, plan, buckets, cost_idx, SpecificPip::Color(x.to_mana()), plans);
            let ghost p1 = plans@;
            if x != y {
                branch_specific_pip(cost, pool, ctx, consumed, plan, buckets, cost_idx, SpecificPip::Color(y.to_mana()), plans);
            }
            let ghost p2 = plans@;
            pay_with_life(cost, pool, ctx, consumed, plan, buckets, cost_idx, plans);
            proof {
                lemma_plans_grown_trans(cs, ps, *ctx, p0, p1, p2);
                lemma_plans_grown_trans(cs, ps, *ctx, p1, p2, plans@);
                lemma_plans_grown_trans(cs, ps, *ctx, p0, p2, plans@);
                assert forall|p: ManaPaymentPlan| #[trigger] follows_walk(cs, ps, *ctx, p, a0, l0, b0, cost_idx as int)
                    implies found_in(p, plans@, p0.len() as int) by {
                    lemma_payment_choice(cs, ps, *ctx, p, cost_idx);
                    if found_in(p, p1, p0.len() as int) {
                        lemma_found_grown(p, p1, plans@, p0.len() as int);
                    } else if found_in(p, p2, p1.len() as int) {
                        lemma_found_grown(p, p2, plans@, p1.len() as int);
                        lemma_found_from(p, plans@, p0.len() as int, p1.len() as int);
                    } else {
                        lemma_found_from(p, plans@, p0.len() as int, p2.len() as int);
                    }
                }
            }
        },
        ManaCostComponent::X => {
            assert(false);
        },
    }
    proof {
        assert forall|p: ManaPaymentPlan| #[trigger] follows_walk(cs, ps, *ctx, p, a0, l0, b0, cost_idx as int)
            implies found_in(p, plans@, pl_start.len() as int) by {
            lemma_payment_choice(cs, ps, *ctx, p, cost_idx);
        }
    }
}

/// Defer component `cost_idx` to a bucket of `need` generic units.
fn defer_bucket(
    cost: &ManaCost,
    pool: &ManaPool,
    ctx: &SpendContext,
    consumed: &mut Vec<bool>,
    plan: &mut ManaPaymentPlan,
    buckets: &mut Vec<(usize, u32)>,
    cost_idx: usize,
    need: u32,
    plans: &mut Vec<ManaPaymentPlan>,
)
    requires
        cost_idx < cost.components@.len(),
        need_pays(cost.components@[cost_idx as int], need),
        walk_ok(cost.components@, pool.pool@, *ctx, old(plan).assignments@, old(plan).phyrexian_life_payments@, old(buckets)@, cost_idx as int),
        !bucketed_from(old(buckets)@, 0, cost_idx as int),
        consumed_ok(old(consumed)@, pool.pool@.len() as int, old(plan).assignments@),
        old(plan).convoke_creatures@.len() == 0,
        old(plan).delve_cards@.len() == 0,
        forall|i: int| 0 <= i < cost.components@.len() ==> cost.components@[i] != ManaCostComponent::X,
    ensures
        final(consumed)@ == old(consumed)@,
        final(plan).assignments@ == old(plan).assignments@,
        final(plan).phyrexian_life_payments@ == old(plan).phyrexian_life_payments@,
        final(plan).convoke_creatures@ == old(plan).convoke_creatures@,
        final(plan).delve_cards@ == old(plan).delve_cards@,
        final(buckets)@ == old(buckets)@,
        plans_grown(cost.components@, pool.pool@, *ctx, old(plans)@, final(plans)@),
        forall|p: ManaPaymentPlan|
            #[trigger] follows_walk(cost.components@, pool.pool@, *ctx, p, old(plan).assignments@, old(plan).phyrexian_life_payments@, old(buckets)@, cost_idx as int) && assigned_count(p.assignments@, cost_idx as int) == need
                && !p.phyrexian_life_payments@.contains(cost_idx) ==> found_in(p, final(plans)@, old(plans)@.len() as int),
    decreases cost.components@.len() - cost_idx, 2nat, 0nat, 0nat, 0nat,
{
    let ghost cs = cost.components@;
    let ghost b0 = buckets@;
    buckets.push((cost_idx, need));
    proof {
        let b1 = buckets@;
        let a = plan.assignments@;
        let l = plan.phyrexian_life_payments@;
        assert forall|ci: int| 0 <= ci < cs.len() implies bucketed_from(b1, 0, ci) == (bucketed_from(b0, 0, ci) || ci == cost_idx) by {
            if bucketed_from(b0, 0, ci) {
                let b = choose|b: int| 0 <= b < b0.len() && #[trigger] b0[b].0 == ci;
                assert(b1[b] == b0[b]);
            }
            if ci == cost_idx {
                assert(b1[b0.len() as int].0 == ci);
            }
            if bucketed_from(b1, 0, ci) {
                let b = choose|b: int| 0 <= b < b1.len() && #[trigger] b1[b].0 == ci;
                if b < b0.len() {
                    assert(b1[b] == b0[b]);
                }
            }
        }
        assert forall|ci: int| 0 <= ci < cs.len() && (ci >= cost_idx + 1 || bucketed_from(b1, 0, ci)) implies #[trigger] unpaid(a, l, ci) by {
            if ci >= cost_idx {
            } else {
                assert(bucketed_from(b0, 0, ci));
            }
        }
        assert forall|ci: int| 0 <= ci < cs.len() && ci < cost_idx + 1 && !bucketed_from(b1, 0, ci) implies #[trigger] component_paid(cs[ci], pool.pool@, a, l, ci, *ctx) by {
            assert(ci < cost_idx && !bucketed_from(b0, 0, ci));
        }
        assert forall|x: int, y: int| 0 <= x < y < b1.len() implies #[trigger] b1[x].0 < #[trigger] b1[y].0 by {
            if y == b0.len() {
                assert(b1[x] == b0[x]);
            } else {
                assert(b1[x] == b0[x]);
                assert(b1[y] == b0[y]);
            }
        }
        assert forall|b: int| 0 <= b < b1.len() implies #[trigger] b1[b].0 < cost_idx + 1 && b1[b].0 < cs.len() && need_pays(cs[b1[b].0 as int], b1[b].1) by {
            if b < b0.len() {
                assert(b1[b] == b0[b]);
            }
        }
    }
    let _len = cost.components.len();
    backtrack_specific(cost, pool, ctx, consumed, plan, buckets, cost_idx + 1, plans);
    proof {
        let a = plan.assignments@;
        let l = plan.phyrexian_life_payments@;
        assert forall|p: ManaPaymentPlan|
            #[trigger] follows_walk(cs, pool.pool@, *ctx, p, a, l, b0, cost_idx as int) && assigned_count(p.assignments@, cost_idx as int) == need
                && !p.phyrexian_life_payments@.contains(cost_idx) implies found_in(p, plans@, old(plans)@.len() as int) by {
            lemma_walk_defer(cs, pool.pool@, *ctx, p, a, l, b0, cost_idx, need);
        }
    }
    buckets.pop();
    proof {
        assert(buckets@ =~= b0);
    }
}

/// Pay Phyrexian component `cost_idx` with 2 life.
fn pay_with_life(
    cost: &ManaCost,
    pool: &ManaPool,
    ctx: &SpendContext,
    consumed: &mut Vec<bool>,
    plan: &mut ManaPaymentPlan,
    buckets: &mut Vec<(usize, u32)>,
    cost_idx: usize,
    plans: &mut Vec<ManaPaymentPlan>,
)
    requires
        cost_idx < cost.components@.len(),
        cost.components@[cost_idx as int] is PhyrexianColored || cost.components@[cost_idx as int] is PhyrexianHybrid,
        walk_ok(cost.components@, pool.pool@, *ctx, old(plan).assignments@, old(plan).phyrexian_life_payments@, old(buckets)@, cost_idx as int),
        !bucketed_from(old(buckets)@, 0, cost_idx as int),
        consumed_ok(old(consumed)@, pool.pool@.len() as int, old(plan).assignments@),
        old(plan).convoke_creatures@.len() == 0,
        old(plan).delve_cards@.len() == 0,
        forall|i: int| 0 <= i < cost.components@.len() ==> cost.components@[i] != ManaCostComponent::X,
    ensures
        final(consumed)@ == old(consumed)@,
        final(plan).assignments@ == old(plan).assignments@,
        final(plan).phyrexian_life_payments@ == old(plan).phyrexian_life_payments@,
        final(plan).convoke_creatures@ == old(plan).convoke_creatures@,
        final(plan).delve_cards@ == old(plan).delve_cards@,
        final(buckets)@ == old(buckets)@,
        plans_grown(cost.components@, pool.pool@, *ctx, old(plans)@, final(plans)@),
        forall|p: ManaPaymentPlan|
            #[trigger] follows_walk(cost.components@, pool.pool@, *ctx, p, old(plan).assignments@, old(plan).phyrexian_life_payments@, old(buckets)@, cost_idx as int) && p.phyrexian_life_payments@.contains(cost_idx)
                && assigned_count(p.assignments@, cost_idx as int) == 0 ==> found_in(p, final(plans)@, old(plans)@.len() as int),
    decreases cost.components@.len() - cost_idx, 2nat, 0nat, 0nat, 0nat,
{
    let ghost cs = cost.components@;
    let ghost l0 = plan.phyrexian_life_payments@;
    let ghost a = plan.assignments@;
    let _len0 = cost.components.len();
    proof {
        assert(unpaid(a, l0, cost_idx as int));
    }
    plan.phyrexian_life_payments.push(cost_idx);
    proof {
        let l1 = plan.phyrexian_life_payments@;
        let b = buckets@;
        assert(l1.contains(cost_idx)) by {
            assert(l1[l0.len() as int] == cost_idx);
        }
        assert forall|ci: int| 0 <= ci < cs.len() && ci != cost_idx implies #[trigger] l1.contains(ci as usize) == l0.contains(ci as usize) by {
            if l1.contains(ci as usize) {
                let j = choose|j: int| 0 <= j < l1.len() && l1[j] == ci as usize;
                if j == l0.len() {
                    assert(l1[j] == cost_idx);
                }
                assert(l0[j] == l1[j]);
            }
            if l0.contains(ci as usize) {
                let j = choose|j: int| 0 <= j < l0.len() && l0[j] == ci as usize;
                assert(l1[j] == l0[j]);
            }
        }
        assert(l1.no_duplicates()) by {
            assert forall|i: int, j: int| 0 <= i < l1.len() && 0 <= j < l1.len() && i != j implies l1[i] != l1[j] by {
                if i == l0.len() {
                    assert(l0[j] == l1[j]);
                    assert(!l0.contains(cost_idx));
                } else if j == l0.len() {
                    assert(l0[i] == l1[i]);
                    assert(!l0.contains(cost_idx));
                } else {
                    assert(l0[i] == l1[i]);
                    assert(l0[j] == l1[j]);
                }
            }
        }
        assert forall|j: int| 0 <= j < l1.len() implies #[trigger] l1[j] < cs.len() by {
            if j < l0.len() {
                assert(l0[j] == l1[j]);
            }
        }
        assert forall|ci: int| 0 <= ci < cs.len() && (ci >= cost_idx + 1 || bucketed_from(b, 0, ci)) implies #[trigger] unpaid(a, l1, ci) by {
            assert(unpaid(a, l0, ci));
            if ci == cost_idx {
                assert(!bucketed_from(b, 0, ci));
            }
        }
        assert forall|ci: int| 0 <= ci < cs.len() && ci < cost_idx + 1 && !bucketed_from(b, 0, ci) implies #[trigger] component_paid(cs[ci], pool.pool@, a, l1, ci, *ctx) by {
            if ci != cost_idx {
                assert(component_paid(cs[ci], pool.pool@, a, l0, ci, *ctx));
            }
        }
        assert forall|bb: int| 0 <= bb < b.len() implies #[trigger] b[bb].0 < cost_idx + 1 && b[bb].0 < cs.len() && need_pays(cs[b[bb].0 as int], b[bb].1) by {
        }
    }
    let _len = cost.components.len();
    backtrack_specific(cost, pool, ctx, consumed, plan, buckets, cost_idx + 1, plans);
    proof {
        assert forall|p: ManaPaymentPlan|
            #[trigger] follows_walk(cs, pool.pool@, *ctx, p, a, l0, buckets@, cost_idx as int) && p.phyrexian_life_payments@.contains(cost_idx)
                && assigned_count(p.assignments@, cost_idx as int) == 0 implies found_in(p, plans@, old(plans)@.len() as int) by {
            lemma_walk_life(cs, pool.pool@, *ctx, p, a, l0, buckets@, cost_idx);
        }
    }
    plan.phyrexian_life_payments.pop();
    proof {
        assert(plan.phyrexian_life_payments@ =~= l0);
    }
}

/// Branch on paying component `cost_idx` with each unconsumed unit that
/// matches `pip`.
fn branch_specific_pip(
    cost: &ManaCost,
    pool: &ManaPool,
    ctx: &SpendContext,
    consumed: &mut Vec<bool>,
    plan: &mut ManaPaymentPlan,
    buckets: &mut Vec<(usize, u32)>,
    cost_idx: usize,
    pip: SpecificPip,
    plans: &mut Vec<ManaPaymentPlan>,
)
    requires
        cost_idx < cost.components@.len(),
        pip_pays(cost.components@[cost_idx as int], pip),
        walk_ok(cost.components@, pool.pool@, *ctx, old(plan).assignments@, old(plan).phyrexian_life_payments@, old(buckets)@, cost_idx as int),
        !bucketed_from(old(buckets)@, 0, cost_idx as int),
        consumed_ok(old(consumed)@, pool.pool@.len() as int, old(plan).assignments@),
        old(plan).convoke_creatures@.len() == 0,
        old(plan).delve_cards@.len() == 0,
        forall|i: int| 0 <= i < cost.components@.len() ==> cost.components@[i] != ManaCostComponent::X,
    ensures
        final(consumed)@ == old(consumed)@,
        final(plan).assignments@ == old(plan).assignments@,
        final(plan).phyrexian_life_payments@ == old(plan).phyrexian_life_payments@,
        final(plan).convoke_creatures@ == old(plan).convoke_creatures@,
        final(plan).delve_cards@ == old(plan).delve_cards@,
        final(buckets)@ == old(buckets)@,
        plans_grown(cost.components@, pool.pool@, *ctx, old(plans)@, final(plans)@),
        forall|p: ManaPaymentPlan|
            #[trigger] follows_walk(cost.components@, pool.pool@, *ctx, p, old(plan).assignments@, old(plan).phyrexian_life_payments@, old(buckets)@, cost_idx as int) && pays_with_unit(pool.pool@, *ctx, p, cost_idx, pip) ==> found_in(
                p,
                final(plans)@,
                old(plans)@.len() as int,
            ),
    decreases cost.components@.len() - cost_idx, 2nat, 0nat, 0nat, 0nat,
{
    let ghost cs = cost.components@;
    let ghost ps = pool.pool@;
    let ghost a0 = plan.assignments@;
    let ghost l0 = plan.phyrexian_life_payments@;
    let ghost c0 = consumed@;
    let ghost pl0 = plans@;
    let mut i: usize = 0;
    while i < pool.pool.len()
        invariant
            cs == cost.components@,
            ps == pool.pool@,
            cost_idx < cs.len(),
            pip_pays(cs[cost_idx as int], pip),
            walk_ok(cs, ps, *ctx, a0, l0, buckets@, cost_idx as int),
            !bucketed_from(buckets@, 0, cost_idx as int),
            consumed_ok(c0, ps.len() as int, a0),
            consumed@ == c0,
            plan.assignments@ == a0,
            plan.phyrexian_life_payments@ == l0,
            plan.convoke_creatures@.len() == 0,
            plan.delve_cards@.len() == 0,
            plan.convoke_creatures@ == old(plan).convoke_creatures@,
            plan.delve_cards@ == old(plan).delve_cards@,
            buckets@ == old(buckets)@,
            forall|k: int| 0 <= k < cs.len() ==> cs[k] != ManaCostComponent::X,
            i <= ps.len(),
            plans_grown(cs, ps, *ctx, pl0, plans@),
            forall|p: ManaPaymentPlan|
                #[trigger] follows_walk(cs, ps, *ctx, p, a0, l0, buckets@, cost_idx as int) && pays_with_unit(ps, *ctx, p, cost_idx, pip)
                    ==> found_in(p, plans@, pl0.len() as int) || unit_from(ps, *ctx, p, cost_idx, pip, i as int),
        decreases ps.len() - i,
    {
        let ghost pl_i = plans@;
        let cond = !consumed[i] && unit_matches_specific(&pool.pool[i], pip, ctx);
        proof {
            assert forall|p: ManaPaymentPlan|
                #[trigger] follows_walk(cs, ps, *ctx, p, a0, l0, buckets@, cost_idx as int) && pays_with_unit(ps, *ctx, p, cost_idx, pip)
                    && !found_in(p, plans@, pl0.len() as int) && !unit_from(ps, *ctx, p, cost_idx, pip, i + 1) implies cond
                    && unit_payment(ps, *ctx, p, cost_idx, pip, ManaAssignment { pool_index: i, cost_index: cost_idx }) by {
                let x = choose|x: ManaAssignment| #[trigger] unit_payment(ps, *ctx, p, cost_idx, pip, x) && x.pool_index >= i;
                assert(x.pool_index == i) by {
                    if x.pool_index > i {
                        assert(unit_payment(ps, *ctx, p, cost_idx, pip, x) && x.pool_index >= i + 1);
                    }
                }
                assert(!consumed@[i as int]) by {
                    if consumed@[i as int] {
                        let j = choose|j: int| 0 <= j < a0.len() && #[trigger] a0[j].pool_index == i;
                        assert(p.assignments@.contains(a0[j]));
                        lemma_same_unit(cs, ps, p.assignments@, p.phyrexian_life_payments@, a0[j], x);
                        assert(unpaid(a0, l0, cost_idx as int));
                        lemma_count_pos(a0, a0[j]);
                    }
                }
            }
        }
        if cond {
            let x = ManaAssignment { pool_index: i, cost_index: cost_idx };
            proof {
                lemma_shape_push(cs, ps, a0, l0, c0, x);
                lemma_others_after_push(cs, ps, *ctx, a0, l0, x);
                assert(unpaid(a0, l0, cost_idx as int));
                lemma_count_push(a0, x, cost_idx as int);
                lemma_meet_empty(ps, a0, cost_idx as int, PipReq::One(pip), *ctx);
                lemma_meet_push_same(ps, a0, cost_idx as int, PipReq::One(pip), *ctx, x);
                lemma_single_pays(cs[cost_idx as int], ps, a0.push(x), l0, cost_idx as int, *ctx, pip);
                let a1 = a0.push(x);
                let b = buckets@;
                assert forall|ci: int| 0 <= ci < cs.len() && (ci >= cost_idx + 1 || bucketed_from(b, 0, ci)) implies #[trigger] unpaid(a1, l0, ci) by {
                    assert(unpaid(a0, l0, ci));
                }
                assert forall|ci: int| 0 <= ci < cs.len() && ci < cost_idx + 1 && !bucketed_from(b, 0, ci) implies #[trigger] component_paid(cs[ci], ps, a1, l0, ci, *ctx) by {
                    if ci != cost_idx {
                        assert(component_paid(cs[ci], ps, a0, l0, ci, *ctx));
                    }
                }
                assert forall|bb: int| 0 <= bb < b.len() implies #[trigger] b[bb].0 < cost_idx + 1 && b[bb].0 < cs.len() && need_pays(cs[b[bb].0 as int], b[bb].1) by {
                }
            }
            consumed.set(i, true);
            plan.assignments.push(x);
            let ghost pb = plans@;
            let _len = cost.components.len();
            backtrack_specific(cost, pool, ctx, consumed, plan, buckets, cost_idx + 1, plans);
            proof {
                lemma_plans_grown_trans(cs, ps, *ctx, pl0, pb, plans@);
                assert forall|p: ManaPaymentPlan|
                    #[trigger] follows_walk(cs, ps, *ctx, p, a0, l0, buckets@, cost_idx as int) && pays_with_unit(ps, *ctx, p, cost_idx, pip)
                        implies found_in(p, plans@, pl0.len() as int) || unit_from(ps, *ctx, p, cost_idx, pip, i + 1) by {
                    if found_in(p, pb, pl0.len() as int) {
                        lemma_found_grown(p, pb, plans@, pl0.len() as int);
                    } else if !unit_from(ps, *ctx, p, cost_idx, pip, i + 1) {
                        lemma_walk_unit(cs, ps, *ctx, p, a0, l0, buckets@, cost_idx, pip, x);
                        lemma_found_from(p, plans@, pl0.len() as int, pb.len() as int);
                    }
                }
            }
            plan.assignments.pop();
            consumed.set(i, false);
            proof {
                assert(plan.assignments@ =~= a0);
                assert(consumed@ =~= c0);
            }
        }
        i = i + 1;
    }
    proof {
        assert forall|p: ManaPaymentPlan|
            #[trigger] follows_walk(cs, ps, *ctx, p, a0, l0, buckets@, cost_idx as int) && pays_with_unit(ps, *ctx, p, cost_idx, pip)
                implies found_in(p, plans@, pl0.len() as int) by {
            if !found_in(p, plans@, pl0.len() as int) {
                let x = choose|x: ManaAssignment| #[trigger] unit_payment(ps, *ctx, p, cost_idx, pip, x) && x.pool_index >= i;
                let j = choose|j: int| 0 <= j < p.assignments@.len() && p.assignments@[j] == x;
                assert(p.assignments@[j].pool_index < ps.len());
            }
        }
    }
}

/// Fill the generic buckets from position `bucket_idx` on with every
/// combination of spendable unconsumed units; each complete filling is a
/// plan.
fn distribute_generic(
    cost: &ManaCost,
    pool: &ManaPool,
    ctx: &SpendContext,
    consumed: &mut Vec<bool>,
    plan: &mut ManaPaymentPlan,
    buckets: &Vec<(usize, u32)>,
    bucket_idx: usize,
    plans: &mut Vec<ManaPaymentPlan>,
)
    requires
        fill_ok(cost.components@, pool.pool@, *ctx, old(plan).assignments@, old(plan).phyrexian_life_payments@, buckets@, bucket_idx as int),
        consumed_ok(old(consumed)@, pool.pool@.len() as int, old(plan).assignments@),
        old(plan).convoke_creatures@.len() == 0,
        old(plan).delve_cards@.len() == 0,
    ensures
        final(consumed)@ == old(consumed)@,
        final(plan).assignments@ == old(plan).assignments@,
        final(plan).phyrexian_life_payments@ == old(plan).phyrexian_life_payments@,
        final(plan).convoke_creatures@ == old(plan).convoke_creatures@,
        final(plan).delve_cards@ == old(plan).delve_cards@,
        plans_grown(cost.components@, pool.pool@, *ctx, old(plans)@, final(plans)@),
        forall|p: ManaPaymentPlan|
            #[trigger] follows_fill(
                cost.components@,
                pool.pool@,
                *ctx,
                p,
                old(plan).assignments@,
                old(plan).phyrexian_life_payments@,
                buckets@,
                bucket_idx as int,
            ) ==> found_in(p, final(plans)@, old(plans)@.len() as int),
    decreases 0nat, 1nat, buckets@.len() - bucket_idx, 1nat, 0nat,
{
    let ghost cs = cost.components@;
    let ghost ps = pool.pool@;
    let ghost b = buckets@;
    if bucket_idx >= buckets.len() {
        proof {
            assert forall|ci: int| 0 <= ci < cs.len() implies #[trigger] component_paid(cs[ci], ps, plan.assignments@, plan.phyrexian_life_payments@, ci, *ctx) by {
                assert(!bucketed_from(b, bucket_idx as int, ci));
            }
        }
        let cl = plan.clone();
        let ghost n0 = plans@.len();
        plans.push(cl);
        proof {
            assert forall|p: ManaPaymentPlan|
                #[trigger] follows_fill(cs, ps, *ctx, p, plan.assignments@, plan.phyrexian_life_payments@, b, bucket_idx as int)
                    implies found_in(p, plans@, n0 as int) by {
                lemma_fill_done(cs, ps, *ctx, p, plans@[n0 as int], b);
            }
        }
        return;
    }
    let (ci, need) = buckets[bucket_idx];
    proof {
        lemma_bucket_next(cs, b, bucket_idx as int);
    }
    if need == 0 {
        proof {
            let a = plan.assignments@;
            let l = plan.phyrexian_life_payments@;
            assert(unpaid(a, l, ci as int)) by {
                assert(bucketed_from(b, bucket_idx as int, ci as int)) by {
                    assert(b[bucket_idx as int].0 == ci);
                }
            }
            lemma_meet_empty(ps, a, ci as int, PipReq::Any, *ctx);
            assert(component_paid(cs[ci as int], ps, a, l, ci as int, *ctx));
            assert forall|p: ManaPaymentPlan|
                #[trigger] follows_fill(cs, ps, *ctx, p, a, l, b, bucket_idx as int)
                    implies follows_fill(cs, ps, *ctx, p, a, l, b, bucket_idx + 1) by {
                lemma_fill_skip(cs, ps, *ctx, p, a, l, b, bucket_idx as int);
            }
        }
        distribute_generic(cost, pool, ctx, consumed, plan, buckets, bucket_idx + 1, plans);
        return;
    }
    let mut usable: Vec<usize> = Vec::new();
    let mut i: usize = 0;
    while i < pool.pool.len()
        invariant
            ps == pool.pool@,
            consumed@.len() == ps.len(),
            i <= ps.len(),
            forall|t: int| 0 <= t < usable@.len() ==> #[trigger] usable@[t] < i && !consumed@[usable@[t] as int] && spec_spendable(ps[usable@[t] as int], *ctx),
            forall|t1: int, t2: int| 0 <= t1 < t2 < usable@.len() ==> #[trigger] usable@[t1] < #[trigger] usable@[t2],
            forall|u: int| 0 <= u < i && !consumed@[u] && spec_spendable(ps[u], *ctx) ==> #[trigger] usable@.contains(u as usize),
        decreases ps.len() - i,
    {
        let ghost u0 = usable@;
        if !consumed[i] && unit_is_spendable(&pool.pool[i], ctx) {
            usable.push(i);
            proof {
                assert(usable@[u0.len() as int] == i);
            }
        }
        proof {
            assert forall|u: int| 0 <= u < i + 1 && !consumed@[u] && spec_spendable(ps[u], *ctx) implies #[trigger] usable@.contains(u as usize) by {
                if u < i {
                    assert(u0.contains(u as usize));
                    let w = choose|w: int| 0 <= w < u0.len() && u0[w] == u as usize;
                    assert(usable@[w] == u0[w]);
                }
            }
        }
        i = i + 1;
    }
    proof {
        let a = plan.assignments@;
        let l = plan.phyrexian_life_payments@;
        assert(bucketed_from(b, bucket_idx as int, ci as int)) by {
            assert(b[bucket_idx as int].0 == ci);
        }
        assert(unpaid(a, l, ci as int));
        lemma_meet_empty(ps, a, ci as int, PipReq::Any, *ctx);
        assert forall|c: int| 0 <= c < cs.len() && bucketed_from(b, bucket_idx + 1, c) implies #[trigger] unpaid(a, l, c) by {
            assert(bucketed_from(b, bucket_idx as int, c));
        }
        assert forall|p: ManaPaymentPlan|
            #[trigger] follows_fill(cs, ps, *ctx, p, a, l, b, bucket_idx as int)
                implies follows_mid(cs, ps, *ctx, p, a, l, b, bucket_idx as int, usable@, 0) by {
            lemma_fill_start(cs, ps, *ctx, p, a, l, b, bucket_idx as int, consumed@, usable@);
        }
    }
    choose_generic_units(cost, pool, ctx, consumed, plan, buckets, bucket_idx, &usable, 0, 0, plans);
}

/// Facts about the bucket at `bi` and those after it.
pub proof fn lemma_bucket_next(cost: Seq<ManaCostComponent>, b: Seq<(usize, u32)>, bi: int)
    requires
        buckets_ok(cost, b, cost.len() as int),
        0 <= bi < b.len(),
    ensures
        forall|ci: int| bucketed_from(b, bi + 1, ci) ==> #[trigger] bucketed_from(b, bi, ci),
        forall|ci: int| bucketed_from(b, bi, ci) && ci != b[bi].0 ==> #[trigger] bucketed_from(b, bi + 1, ci),
        !bucketed_from(b, bi + 1, b[bi].0 as int),
        bucketed_from(b, bi, b[bi].0 as int),
{
    assert(b[bi].0 == b[bi].0);
    assert forall|ci: int| bucketed_from(b, bi + 1, ci) implies #[trigger] bucketed_from(b, bi, ci) by {
        let w = choose|w: int| bi + 1 <= w < b.len() && #[trigger] b[w].0 == ci;
    }
    assert forall|ci: int| bucketed_from(b, bi, ci) && ci != b[bi].0 implies #[trigger] bucketed_from(b, bi + 1, ci) by {
        let w = choose|w: int| bi <= w < b.len() && #[trigger] b[w].0 == ci;
        assert(w != bi);
    }
    if bucketed_from(b, bi + 1, b[bi].0 as int) {
        let w = choose|w: int| bi + 1 <= w < b.len() && #[trigger] b[w].0 == b[bi].0;
        assert(b[bi].0 < b[w].0);
    }
}

/// Choose units for bucket `bucket_idx` among `usable[start..]`, `picked`
/// already chosen; once the bucket is full, go on with the next bucket.
#[verifier::rlimit(60)]
fn choose_generic_units(
    cost: &ManaCost,
    pool: &ManaPool,
    ctx: &SpendContext,
    consumed: &mut Vec<bool>,
    plan: &mut ManaPaymentPlan,
    buckets: &Vec<(usize, u32)>,
    bucket_idx: usize,
    usable: &Vec<usize>,
    start: usize,
    picked: u32,
    plans: &mut Vec<ManaPaymentPlan>,
)
    requires
        bucket_idx < buckets@.len(),
        picked < buckets@[bucket_idx as int].1,
        start <= usable@.len(),
        fill_mid_ok(cost.components@, pool.pool@, *ctx, old(plan).assignments@, old(plan).phyrexian_life_payments@, buckets@, bucket_idx as int),
        ({
            let ci = buckets@[bucket_idx as int].0 as int;
            &&& assigned_count(old(plan).assignments@, ci) == picked
            &&& !old(plan).phyrexian_life_payments@.contains(ci as usize)
            &&& all_assigned_meet(pool.pool@, old(plan).assignments@, ci, PipReq::Any, *ctx)
        }),
        consumed_ok(old(consumed)@, pool.pool@.len() as int, old(plan).assignments@),
        forall|t: int| start <= t < usable@.len() ==> #[trigger] usable@[t] < pool.pool@.len() && !old(consumed)@[usable@[t] as int] && spec_spendable(pool.pool@[usable@[t] as int], *ctx),
        forall|t1: int, t2: int| 0 <= t1 < t2 < usable@.len() ==> #[trigger] usable@[t1] < #[trigger] usable@[t2],
        old(plan).convoke_creatures@.len() == 0,
        old(plan).delve_cards@.len() == 0,
    ensures
        final(consumed)@ == old(consumed)@,
        final(plan).assignments@ == old(plan).assignments@,
        final(plan).phyrexian_life_payments@ == old(plan).phyrexian_life_payments@,
        final(plan).convoke_creatures@ == old(plan).convoke_creatures@,
        final(plan).delve_cards@ == old(plan).delve_cards@,
        plans_grown(cost.components@, pool.pool@, *ctx, old(plans)@, final(plans)@),
        forall|p: ManaPaymentPlan|
            #[trigger] follows_mid(
                cost.components@,
                pool.pool@,
                *ctx,
                p,
                old(plan).assignments@,
                old(plan).phyrexian_life_payments@,
                buckets@,
                bucket_idx as int,
                usable@,
                start as int,
            ) ==> found_in(p, final(plans)@, old(plans)@.len() as int),
    decreases 0nat, 1nat, buckets@.len() - bucket_idx, 0nat, buckets@[bucket_idx as int].1 - picked,
{
    let ghost cs = cost.components@;
    let ghost ps = pool.pool@;
    let ghost b = buckets@;
    let ghost a0 = plan.assignments@;
    let ghost l0 = plan.phyrexian_life_payments@;
    let ghost c0 = consumed@;
    let ghost pl0 = plans@;
    let (ci, need) = buckets[bucket_idx];
    proof {
        lemma_bucket_next(cs, b, bucket_idx as int);
    }
    let mut t: usize = start;
    while t < usable.len()
        invariant
            cs == cost.components@,
            ps == pool.pool@,
            b == buckets@,
            bucket_idx < b.len(),
            (ci, need) == b[bucket_idx as int],
            picked < need,
            start <= t <= usable@.len(),
            fill_mid_ok(cs, ps, *ctx, a0, l0, b, bucket_idx as int),
            assigned_count(a0, ci as int) == picked,
            !l0.contains(ci),
            all_assigned_meet(ps, a0, ci as int, PipReq::Any, *ctx),
            consumed_ok(c0, ps.len() as int, a0),
            forall|tt: int| start <= tt < usable@.len() ==> #[trigger] usable@[tt] < ps.len() && !c0[usable@[tt] as int] && spec_spendable(ps[usable@[tt] as int], *ctx),
            forall|t1: int, t2: int| 0 <= t1 < t2 < usable@.len() ==> #[trigger] usable@[t1] < #[trigger] usable@[t2],
            consumed@ == c0,
            plan.assignments@ == a0,
            plan.phyrexian_life_payments@ == l0,
            plan.convoke_creatures@.len() == 0,
            plan.delve_cards@.len() == 0,
            plan.convoke_creatures@ == old(plan).convoke_creatures@,
            plan.delve_cards@ == old(plan).delve_cards@,
            plans_grown(cs, ps, *ctx, pl0, plans@),
            forall|p: ManaPaymentPlan|
                #[trigger] follows_mid(cs, ps, *ctx, p, a0, l0, b, bucket_idx as int, usable@, start as int) ==> found_in(
                    p,
                    plans@,
                    pl0.len() as int,
                ) || follows_mid(cs, ps, *ctx, p, a0, l0, b, bucket_idx as int, usable@, t as int),
        decreases usable@.len() - t,
    {
        let u = usable[t];
        let x = ManaAssignment { pool_index: u, cost_index: ci };
        proof {
            assert(b[bucket_idx as int].0 == ci);
            assert(ci < cs.len());
            lemma_shape_push(cs, ps, a0, l0, c0, x);
            lemma_others_after_push(cs, ps, *ctx, a0, l0, x);
            lemma_count_push(a0, x, ci as int);
            lemma_meet_push_same(ps, a0, ci as int, PipReq::Any, *ctx, x);
        }
        consumed.set(u, true);
        plan.assignments.push(x);
        let ghost pb = plans@;
        if picked + 1 == need {
            proof {
                let a1 = plan.assignments@;
                assert forall|c: int| 0 <= c < cs.len() && bucketed_from(b, bucket_idx + 1, c) implies #[trigger] unpaid(a1, l0, c) by {
                    assert(c != ci);
                    assert(unpaid(a0, l0, c));
                }
                assert forall|c: int| 0 <= c < cs.len() && !bucketed_from(b, bucket_idx + 1, c) implies #[trigger] component_paid(cs[c], ps, a1, l0, c, *ctx) by {
                    if c != ci {
                        assert(!bucketed_from(b, bucket_idx as int, c));
                        assert(component_paid(cs[c], ps, a0, l0, c, *ctx));
                    } else {
                        assert(need_pays(cs[c], need));
                    }
                }
            }
            let _nb = buckets.len();
            distribute_generic(cost, pool, ctx, consumed, plan, buckets, bucket_idx + 1, plans);
        } else {
            proof {
                let a1 = plan.assignments@;
                assert forall|c: int| 0 <= c < cs.len() && bucketed_from(b, bucket_idx + 1, c) implies #[trigger] unpaid(a1, l0, c) by {
                    assert(c != ci);
                    assert(unpaid(a0, l0, c));
                }
                assert forall|c: int| 0 <= c < cs.len() && !bucketed_from(b, bucket_idx as int, c) implies #[trigger] component_paid(cs[c], ps, a1, l0, c, *ctx) by {
                    assert(c != ci);
                    assert(component_paid(cs[c], ps, a0, l0, c, *ctx));
                }
                assert forall|tt: int| t + 1 <= tt < usable@.len() implies #[trigger] usable@[tt] < ps.len() && !consumed@[usable@[tt] as int] && spec_spendable(ps[usable@[tt] as int], *ctx) by {
                    assert(usable@[t as int] < usable@[tt]);
                }
            }
            choose_generic_units(cost, pool, ctx, consumed, plan, buckets, bucket_idx, usable, t + 1, picked + 1, plans);
        }
        proof {
            lemma_plans_grown_trans(cs, ps, *ctx, pl0, pb, plans@);
            assert forall|p: ManaPaymentPlan|
                #[trigger] follows_mid(cs, ps, *ctx, p, a0, l0, b, bucket_idx as int, usable@, start as int) implies found_in(
                    p,
                    plans@,
                    pl0.len() as int,
                ) || follows_mid(cs, ps, *ctx, p, a0, l0, b, bucket_idx as int, usable@, t + 1) by {
                if found_in(p, pb, pl0.len() as int) {
                    lemma_found_grown(p, pb, plans@, pl0.len() as int);
                } else {
                    assert(follows_mid(cs, ps, *ctx, p, a0, l0, b, bucket_idx as int, usable@, t as int));
                    assert forall|j: int| 0 <= j < a0.len() implies #[trigger] a0[j].pool_index != usable@[t as int] by {
                        assert(!c0[usable@[t as int] as int]);
                    }
                    lemma_mid_step(cs, ps, *ctx, p, a0, l0, b, bucket_idx as int, usable@, t as int);
                    if ps_contains_x(p, x) {
                        assert(found_in(p, plans@, pb.len() as int));
                        lemma_found_from(p, plans@, pl0.len() as int, pb.len() as int);
                    }
                }
            }
        }
        plan.assignments.pop();
        consumed.set(u, false);
        proof {
            assert(plan.assignments@ =~= a0);
            assert(consumed@ =~= c0);
        }
        t = t + 1;
    }
    proof {
        assert forall|p: ManaPaymentPlan|
            #[trigger] follows_mid(cs, ps, *ctx, p, a0, l0, b, bucket_idx as int, usable@, start as int) implies found_in(
                p,
                plans@,
                pl0.len() as int,
            ) by {
            if !found_in(p, plans@, pl0.len() as int) {
                lemma_mid_end(cs, ps, *ctx, p, a0, l0, b, bucket_idx as int, usable@);
            }
        }
    }
}

// =============================================================================
// Completeness of the backtracking search
// =============================================================================

/// `p` makes assignment `x`.
pub open spec fn ps_contains_x(p: ManaPaymentPlan, x: ManaAssignment) -> bool {
    p.assignments@.contains(x)
}

/// Every assignment of `a` is one of `p`.
pub open spec fn within(a: Seq<ManaAssignment>, p: ManaPaymentPlan) -> bool {
    forall|j: int| 0 <= j < a.len() ==> p.assignments@.contains(#[trigger] a[j])
}

/// Every life payment of `l` is one of `p`.
pub open spec fn life_within(l: Seq<usize>, p: ManaPaymentPlan) -> bool {
    forall|c: usize| #[trigger] l.contains(c) ==> p.phyrexian_life_payments@.contains(c)
}

/// Each bucket waits for as many units as `p` spends on its component.
pub open spec fn buckets_follow(buckets: Seq<(usize, u32)>, p: ManaPaymentPlan) -> bool {
    forall|bb: int| 0 <= bb < buckets.len() ==> assigned_count(p.assignments@, #[trigger] buckets[bb].0 as int) == buckets[bb].1
}

/// The walk state `(a, l, buckets)` at component `k` lies on the way to
/// `p`, a plan paying `cost`: it holds only payments of `p`, all of them
/// for the components before `k` that wait in no bucket.
pub open spec fn follows_walk(
    cost: Seq<ManaCostComponent>,
    pool: Seq<ManaUnit>,
    ctx: SpendContext,
    p: ManaPaymentPlan,
    a: Seq<ManaAssignment>,
    l: Seq<usize>,
    buckets: Seq<(usize, u32)>,
    k: int,
) -> bool {
    &&& plan_pays(cost, pool, ctx, p)
    &&& within(a, p)
    &&& life_within(l, p)
    &&& buckets_follow(buckets, p)
    &&& forall|x: ManaAssignment|
        #[trigger] p.assignments@.contains(x) && x.cost_index < k && !bucketed_from(buckets, 0, x.cost_index as int)
            ==> a.contains(x)
    &&& forall|c: usize| #[trigger] p.phyrexian_life_payments@.contains(c) && c < k ==> l.contains(c)
}

/// The filling state at bucket `bi` lies on the way to `p`: every payment
/// of `p` outside the buckets from `bi` on is made.
pub open spec fn follows_fill(
    cost: Seq<ManaCostComponent>,
    pool: Seq<ManaUnit>,
    ctx: SpendContext,
    p: ManaPaymentPlan,
    a: Seq<ManaAssignment>,
    l: Seq<usize>,
    buckets: Seq<(usize, u32)>,
    bi: int,
) -> bool {
    &&& plan_pays(cost, pool, ctx, p)
    &&& within(a, p)
    &&& life_within(l, p)
    &&& buckets_follow(buckets, p)
    &&& forall|x: ManaAssignment|
        #[trigger] p.assignments@.contains(x) && !bucketed_from(buckets, bi, x.cost_index as int) ==> a.contains(x)
    &&& forall|c: usize| #[trigger] p.phyrexian_life_payments@.contains(c) ==> l.contains(c)
}

/// While bucket `bi` is being filled from `usable[start..]`, the state
/// lies on the way to `p`: the units `p` spends on the bucket's component
/// and that are not chosen yet come from `usable[start..]`.
pub open spec fn follows_mid(
    cost: Seq<ManaCostComponent>,
    pool: Seq<ManaUnit>,
    ctx: SpendContext,
    p: ManaPaymentPlan,
    a: Seq<ManaAssignment>,
    l: Seq<usize>,
    buckets: Seq<(usize, u32)>,
    bi: int,
    usable: Seq<usize>,
    start: int,
) -> bool {
    &&& follows_fill(cost, pool, ctx, p, a, l, buckets, bi)
    &&& forall|x: ManaAssignment|
        #[trigger] p.assignments@.contains(x) && x.cost_index == buckets[bi].0 && !a.contains(x) ==> exists|t: int|
            start <= t < usable.len() && #[trigger] usable[t] == x.pool_index
}

/// `q` makes exactly the payments of `p`, perhaps in another order.
pub open spec fn covers(p: ManaPaymentPlan, q: ManaPaymentPlan) -> bool {
    &&& p.assignments@.to_set() == q.assignments@.to_set()
    &&& p.phyrexian_life_payments@.to_set() == q.phyrexian_life_payments@.to_set()
}

/// Some plan of `plans` from position `from` on covers `p`.
pub open spec fn found_in(p: ManaPaymentPlan, plans: Seq<ManaPaymentPlan>, from: int) -> bool {
    exists|j: int| from <= j < plans.len() && covers(p, #[trigger] plans[j])
}

pub proof fn lemma_found_grown(p: ManaPaymentPlan, s1: Seq<ManaPaymentPlan>, s2: Seq<ManaPaymentPlan>, from: int)
    requires
        found_in(p, s1, from),
        0 <= from,
        s2.len() >= s1.len(),
        forall|j: int| 0 <= j < s1.len() ==> #[trigger] s2[j] == s1[j],
    ensures
        found_in(p, s2, from),
{
    let j = choose|j: int| from <= j < s1.len() && covers(p, #[trigger] s1[j]);
    assert(s2[j] == s1[j]);
}

pub proof fn lemma_found_from(p: ManaPaymentPlan, s: Seq<ManaPaymentPlan>, from: int, from2: int)
    requires
        found_in(p, s, from2),
        from <= from2,
    ensures
        found_in(p, s, from),
{
    let j = choose|j: int| from2 <= j < s.len() && covers(p, #[trigger] s[j]);
}

/// A plan that pays a cost spends no unit twice, so lists no assignment
/// twice.
pub proof fn lemma_shape_no_dup(
    cost: Seq<ManaCostComponent>,
    pool: Seq<ManaUnit>,
    a: Seq<ManaAssignment>,
    life: Seq<usize>,
)
    requires
        plan_shape_ok(cost, pool, a, life),
    ensures
        a.no_duplicates(),
{
    assert forall|i: int, j: int| 0 <= i < a.len() && 0 <= j < a.len() && i != j implies a[i] != a[j] by {
        if i < j {
            assert(a[i].pool_index != a[j].pool_index);
        } else {
            assert(a[j].pool_index != a[i].pool_index);
        }
    }
}

/// Two assignments of a plan that spend the same unit are the same.
pub proof fn lemma_same_unit(
    cost: Seq<ManaCostComponent>,
    pool: Seq<ManaUnit>,
    a: Seq<ManaAssignment>,
    life: Seq<usize>,
    x: ManaAssignment,
    y: ManaAssignment,
)
    requires
        plan_shape_ok(cost, pool, a, life),
        a.contains(x),
        a.contains(y),
        x.pool_index == y.pool_index,
    ensures
        x == y,
{
    let i = choose|i: int| 0 <= i < a.len() && a[i] == x;
    let j = choose|j: int| 0 <= j < a.len() && a[j] == y;
    if i < j {
        assert(a[i].pool_index != a[j].pool_index);
    } else if j < i {
        assert(a[j].pool_index != a[i].pool_index);
    }
}

/// An assignment of `a` to component `x.cost_index` is counted there.
pub proof fn lemma_count_pos(a: Seq<ManaAssignment>, x: ManaAssignment)
    requires
        a.contains(x),
    ensures
        assigned_count(a, x.cost_index as int) >= 1,
{
    let j = choose|j: int| 0 <= j < a.len() && a[j] == x;
    if assigned_count(a, x.cost_index as int) == 0 {
        lemma_count_zero_inv(a, x.cost_index as int, j);
    }
}

/// Some assignment pays a component counted at least once.
pub proof fn lemma_count_witness(a: Seq<ManaAssignment>, ci: int) -> (x: ManaAssignment)
    requires
        assigned_count(a, ci) >= 1,
    ensures
        a.contains(x),
        x.cost_index == ci,
    decreases a.len(),
{
    assert(a.len() > 0);
    let n = a.len() - 1;
    if a[n].cost_index == ci {
        a[n]
    } else {
        assert(a.drop_last().len() == n);
        let x = lemma_count_witness(a.drop_last(), ci);
        let i = choose|i: int| 0 <= i < a.drop_last().len() && a.drop_last()[i] == x;
        assert(a[i] == x);
        x
    }
}

/// The assignments paying component `ci`.
pub open spec fn pays_component(ci: int) -> spec_fn(ManaAssignment) -> bool {
    |z: ManaAssignment| z.cost_index == ci
}

/// `assigned_count` counts the assignments kept by a filter.
pub proof fn lemma_count_filter(a: Seq<ManaAssignment>, ci: int)
    ensures
        assigned_count(a, ci) == a.filter(pays_component(ci)).len(),
    decreases a.len(),
{
    reveal(Seq::filter);
    if a.len() > 0 {
        lemma_count_filter(a.drop_last(), ci);
    }
}

proof fn lemma_filter_keeps(a: Seq<ManaAssignment>, ci: int, x: ManaAssignment)
    requires
        a.contains(x),
        x.cost_index == ci,
    ensures
        a.filter(pays_component(ci)).contains(x),
{
    let i = choose|i: int| 0 <= i < a.len() && a[i] == x;
    a.lemma_filter_contains(pays_component(ci), i);
}

proof fn lemma_filter_no_dup(a: Seq<ManaAssignment>, ci: int)
    requires
        a.no_duplicates(),
    ensures
        a.filter(pays_component(ci)).no_duplicates(),
    decreases a.len(),
{
    reveal(Seq::filter);
    if a.len() > 0 {
        let d = a.drop_last();
        assert(d.no_duplicates()) by {
            assert forall|i: int, j: int| 0 <= i < d.len() && 0 <= j < d.len() && i != j implies d[i] != d[j] by {
                assert(d[i] == a[i] && d[j] == a[j]);
            }
        }
        lemma_filter_no_dup(d, ci);
        let fd = d.filter(pays_component(ci));
        if pays_component(ci)(a.last()) {
            let f = fd.push(a.last());
            assert(f == a.filter(pays_component(ci)));
            assert(!fd.contains(a.last())) by {
                if fd.contains(a.last()) {
                    d.lemma_filter_contains_rev(pays_component(ci), a.last());
                    let k = choose|k: int| 0 <= k < d.len() && d[k] == a.last();
                    assert(a[k] == a[a.len() - 1]);
                }
            }
            assert forall|i: int, j: int| 0 <= i < f.len() && 0 <= j < f.len() && i != j implies f[i] != f[j] by {
                if i < fd.len() && j < fd.len() {
                    assert(f[i] == fd[i] && f[j] == fd[j]);
                } else if i < fd.len() {
                    assert(f[i] == fd[i]);
                } else if j < fd.len() {
                    assert(f[j] == fd[j]);
                }
            }
        }
    }
}

/// If the assignments of `s` are among those of `t`, `s` counts at most
/// as many for each component; as many only when it holds all of them.
pub proof fn lemma_count_subset(s: Seq<ManaAssignment>, t: Seq<ManaAssignment>, ci: int)
    requires
        s.no_duplicates(),
        forall|j: int| 0 <= j < s.len() && s[j].cost_index == ci ==> t.contains(#[trigger] s[j]),
    ensures
        assigned_count(s, ci) <= assigned_count(t, ci),
        t.no_duplicates() && assigned_count(s, ci) == assigned_count(t, ci) ==> forall|y: ManaAssignment|
            #[trigger] t.contains(y) && y.cost_index == ci ==> s.contains(y),
{
    broadcast use vstd::seq_lib::group_filter_ensures;
    let fs = s.filter(pays_component(ci));
    let ft = t.filter(pays_component(ci));
    lemma_count_filter(s, ci);
    lemma_count_filter(t, ci);
    lemma_filter_no_dup(s, ci);
    fs.unique_seq_to_set();
    ft.lemma_cardinality_of_set();
    assert(fs.to_set().subset_of(ft.to_set())) by {
        assert forall|x: ManaAssignment| fs.to_set().contains(x) implies ft.to_set().contains(x) by {
            assert(fs.contains(x));
            s.lemma_filter_contains_rev(pays_component(ci), x);
            let i = choose|i: int| 0 <= i < fs.len() && fs[i] == x;
            s.lemma_filter_pred(pays_component(ci), i);
            let k = choose|k: int| 0 <= k < s.len() && s[k] == x;
            assert(s[k].cost_index == ci);
            assert(t.contains(s[k]));
            lemma_filter_keeps(t, ci, x);
        }
    }
    vstd::set_lib::lemma_len_subset(fs.to_set(), ft.to_set());
    if t.no_duplicates() && assigned_count(s, ci) == assigned_count(t, ci) {
        lemma_filter_no_dup(t, ci);
        ft.unique_seq_to_set();
        vstd::set_lib::lemma_subset_equality(fs.to_set(), ft.to_set());
        assert forall|y: ManaAssignment| #[trigger] t.contains(y) && y.cost_index == ci implies s.contains(y) by {
            lemma_filter_keeps(t, ci, y);
            assert(ft.to_set().contains(y));
            assert(fs.to_set().contains(y));
            assert(fs.contains(y));
            s.lemma_filter_contains_rev(pays_component(ci), y);
        }
    }
}

pub proof fn lemma_seq_count_remove<B>(u: Seq<B>, i: int, y: B)
    requires
        0 <= i < u.len(),
    ensures
        seq_count(u, y) == seq_count(u.remove(i), y) + if u[i] == y {
            1nat
        } else {
            0nat
        },
    decreases u.len(),
{
    if i == u.len() - 1 {
        assert(u.remove(i) =~= u.drop_last());
    } else {
        lemma_seq_count_remove(u.drop_last(), i, y);
        assert(u.remove(i).drop_last() =~= u.drop_last().remove(i));
        assert(u.remove(i).last() == u.last());
    }
}

/// Two duplicate-free sequences with the same elements are rearrangements
/// of each other: any function of their items takes each value equally
/// often over both.
pub proof fn lemma_same_set_counts<A, B>(s: Seq<A>, t: Seq<A>, f: spec_fn(A) -> B)
    requires
        s.no_duplicates(),
        t.no_duplicates(),
        s.to_set() == t.to_set(),
    ensures
        same_multiset(s.map_values(f), t.map_values(f)),
    decreases s.len(),
{
    if s.len() == 0 {
        t.unique_seq_to_set();
        s.unique_seq_to_set();
        assert(t.len() == 0);
        assert(s.map_values(f) =~= t.map_values(f));
    } else {
        let x = s.last();
        let sd = s.drop_last();
        assert(s.to_set().contains(x)) by {
            assert(s[s.len() - 1] == x);
        }
        assert(t.contains(x));
        let i = choose|i: int| 0 <= i < t.len() && t[i] == x;
        let td = t.remove(i);
        assert(sd.no_duplicates()) by {
            assert forall|a: int, b: int| 0 <= a < sd.len() && 0 <= b < sd.len() && a != b implies sd[a] != sd[b] by {
                assert(sd[a] == s[a] && sd[b] == s[b]);
            }
        }
        assert(td.no_duplicates()) by {
            assert forall|a: int, b: int| 0 <= a < td.len() && 0 <= b < td.len() && a != b implies td[a] != td[b] by {
                let a2 = if a < i { a } else { a + 1 };
                let b2 = if b < i { b } else { b + 1 };
                assert(td[a] == t[a2] && td[b] == t[b2]);
            }
        }
        assert(sd.to_set() =~= td.to_set()) by {
            assert forall|z: A| sd.to_set().contains(z) <==> td.to_set().contains(z) by {
                if sd.contains(z) {
                    let a = choose|a: int| 0 <= a < sd.len() && sd[a] == z;
                    assert(s[a] == z);
                    assert(s.to_set().contains(z));
                    assert(t.contains(z));
                    let b = choose|b: int| 0 <= b < t.len() && t[b] == z;
                    assert(z != x) by {
                        assert(s[a] != s[s.len() - 1]);
                    }
                    assert(b != i);
                    if b < i {
                        assert(td[b] == z);
                    } else {
                        assert(td[b - 1] == z);
                    }
                }
                if td.contains(z) {
                    let b = choose|b: int| 0 <= b < td.len() && td[b] == z;
                    let b2 = if b < i { b } else { b + 1 };
                    assert(t[b2] == z);
                    assert(b2 != i);
                    assert(z != x) by {
                        assert(t[b2] != t[i]);
                    }
                    assert(t.to_set().contains(z));
                    assert(s.contains(z));
                    let a = choose|a: int| 0 <= a < s.len() && s[a] == z;
                    assert(a != s.len() - 1);
                    assert(sd[a] == z);
                }
            }
        }
        lemma_same_set_counts(sd, td, f);
        assert forall|y: B| #[trigger] seq_count(s.map_values(f), y) == seq_count(t.map_values(f), y) by {
            assert(s.map_values(f).drop_last() =~= sd.map_values(f));
            assert(s.map_values(f).last() == f(x));
            lemma_seq_count_remove(t.map_values(f), i, y);
            assert(t.map_values(f).remove(i) =~= td.map_values(f));
            assert(seq_count(sd.map_values(f), y) == seq_count(td.map_values(f), y));
        }
    }
}

/// The identity on component indices.
pub open spec fn same_index() -> spec_fn(usize) -> usize {
    |c: usize| c
}

/// A plan making exactly the payments of another, both paying the cost,
/// is equivalent to it.
pub proof fn lemma_covers_equivalent(
    cost: Seq<ManaCostComponent>,
    pool: Seq<ManaUnit>,
    ctx: SpendContext,
    p: ManaPaymentPlan,
    q: ManaPaymentPlan,
)
    requires
        plan_pays(cost, pool, ctx, p),
        plan_pays(cost, pool, ctx, q),
        covers(p, q),
    ensures
        plans_equivalent(pool, p, q),
{
    lemma_shape_no_dup(cost, pool, p.assignments@, p.phyrexian_life_payments@);
    lemma_shape_no_dup(cost, pool, q.assignments@, q.phyrexian_life_payments@);
    lemma_same_set_counts(p.assignments@, q.assignments@, key_of(pool));
    lemma_same_set_counts(p.phyrexian_life_payments@, q.phyrexian_life_payments@, same_index());
    assert(p.phyrexian_life_payments@.map_values(same_index()) =~= p.phyrexian_life_payments@);
    assert(q.phyrexian_life_payments@.map_values(same_index()) =~= q.phyrexian_life_payments@);
}

/// Plan equivalence is transitive.
pub proof fn lemma_equiv_trans(pool: Seq<ManaUnit>, p1: ManaPaymentPlan, p2: ManaPaymentPlan, p3: ManaPaymentPlan)
    requires
        plans_equivalent(pool, p1, p2),
        plans_equivalent(pool, p2, p3),
    ensures
        plans_equivalent(pool, p1, p3),
{
}


/// With every bucket filled, the plan made covers `p`.
pub proof fn lemma_fill_done(
    cost: Seq<ManaCostComponent>,
    pool: Seq<ManaUnit>,
    ctx: SpendContext,
    p: ManaPaymentPlan,
    q: ManaPaymentPlan,
    buckets: Seq<(usize, u32)>,
)
    requires
        follows_fill(cost, pool, ctx, p, q.assignments@, q.phyrexian_life_payments@, buckets, buckets.len() as int),
    ensures
        covers(p, q),
{
    let a = q.assignments@;
    assert(p.assignments@.to_set() =~= a.to_set()) by {
        assert forall|x: ManaAssignment| p.assignments@.to_set().contains(x) <==> a.to_set().contains(x) by {
            if p.assignments@.contains(x) {
                assert(!bucketed_from(buckets, buckets.len() as int, x.cost_index as int));
            }
            if a.contains(x) {
                let j = choose|j: int| 0 <= j < a.len() && a[j] == x;
                assert(p.assignments@.contains(a[j]));
            }
        }
    }
    assert(p.phyrexian_life_payments@.to_set() =~= q.phyrexian_life_payments@.to_set());
}

/// A bucket waiting for no unit is skipped.
pub proof fn lemma_fill_skip(
    cost: Seq<ManaCostComponent>,
    pool: Seq<ManaUnit>,
    ctx: SpendContext,
    p: ManaPaymentPlan,
    a: Seq<ManaAssignment>,
    l: Seq<usize>,
    buckets: Seq<(usize, u32)>,
    bi: int,
)
    requires
        follows_fill(cost, pool, ctx, p, a, l, buckets, bi),
        buckets_ok(cost, buckets, cost.len() as int),
        0 <= bi < buckets.len(),
        buckets[bi].1 == 0,
    ensures
        follows_fill(cost, pool, ctx, p, a, l, buckets, bi + 1),
{
    lemma_bucket_next(cost, buckets, bi);
    assert forall|x: ManaAssignment|
        #[trigger] p.assignments@.contains(x) && !bucketed_from(buckets, bi + 1, x.cost_index as int) implies a.contains(x) by {
        if bucketed_from(buckets, bi, x.cost_index as int) {
            assert(x.cost_index == buckets[bi].0);
            lemma_count_pos(p.assignments@, x);
            assert(assigned_count(p.assignments@, buckets[bi].0 as int) == buckets[bi].1);
        }
    }
}

/// Starting to fill bucket `bi` from every unconsumed spendable unit.
pub proof fn lemma_fill_start(
    cost: Seq<ManaCostComponent>,
    pool: Seq<ManaUnit>,
    ctx: SpendContext,
    p: ManaPaymentPlan,
    a: Seq<ManaAssignment>,
    l: Seq<usize>,
    buckets: Seq<(usize, u32)>,
    bi: int,
    consumed: Seq<bool>,
    usable: Seq<usize>,
)
    requires
        follows_fill(cost, pool, ctx, p, a, l, buckets, bi),
        buckets_ok(cost, buckets, cost.len() as int),
        0 <= bi < buckets.len(),
        consumed_ok(consumed, pool.len() as int, a),
        forall|u: int| 0 <= u < pool.len() && !consumed[u] && spec_spendable(pool[u], ctx) ==> #[trigger] usable.contains(u as usize),
    ensures
        follows_mid(cost, pool, ctx, p, a, l, buckets, bi, usable, 0),
{
    let pa = p.assignments@;
    let ci = buckets[bi].0 as int;
    assert forall|x: ManaAssignment|
        #[trigger] pa.contains(x) && x.cost_index == buckets[bi].0 && !a.contains(x) implies exists|t: int|
            0 <= t < usable.len() && #[trigger] usable[t] == x.pool_index by {
        let k = choose|k: int| 0 <= k < pa.len() && pa[k] == x;
        let u = x.pool_index as int;
        assert(pa[k].pool_index < pool.len());
        assert(!consumed[u]) by {
            if consumed[u] {
                let j = choose|j: int| 0 <= j < a.len() && #[trigger] a[j].pool_index == u;
                assert(pa.contains(a[j]));
                lemma_same_unit(cost, pool, pa, p.phyrexian_life_payments@, a[j], x);
                assert(a.contains(x));
            }
        }
        assert(need_pays(cost[ci], buckets[bi].1));
        assert(assigned_count(pa, ci) == buckets[bi].1);
        assert(component_paid(cost[ci], pool, pa, p.phyrexian_life_payments@, ci, ctx));
        assert(pa[k].cost_index == ci);
        assert(spec_unit_meets(pool[pa[k].pool_index as int], PipReq::Any, ctx));
        assert(usable.contains(u as usize));
    }
}

/// One step of filling bucket `bi`: unit `usable[t]` is taken when `p`
/// spends it on the bucket, skipped otherwise.
pub proof fn lemma_mid_step(
    cost: Seq<ManaCostComponent>,
    pool: Seq<ManaUnit>,
    ctx: SpendContext,
    p: ManaPaymentPlan,
    a: Seq<ManaAssignment>,
    l: Seq<usize>,
    buckets: Seq<(usize, u32)>,
    bi: int,
    usable: Seq<usize>,
    t: int,
)
    requires
        follows_mid(cost, pool, ctx, p, a, l, buckets, bi, usable, t),
        buckets_ok(cost, buckets, cost.len() as int),
        plan_shape_ok(cost, pool, a, l),
        0 <= bi < buckets.len(),
        0 <= t < usable.len(),
        forall|j: int| 0 <= j < a.len() ==> #[trigger] a[j].pool_index != usable[t],
    ensures
        ({
            let x = ManaAssignment { pool_index: usable[t], cost_index: buckets[bi].0 };
            &&& !p.assignments@.contains(x) ==> follows_mid(cost, pool, ctx, p, a, l, buckets, bi, usable, t + 1)
            &&& p.assignments@.contains(x) ==> follows_mid(cost, pool, ctx, p, a.push(x), l, buckets, bi, usable, t + 1)
            &&& p.assignments@.contains(x) && assigned_count(a, buckets[bi].0 as int) + 1 == buckets[bi].1 ==> follows_fill(
                cost,
                pool,
                ctx,
                p,
                a.push(x),
                l,
                buckets,
                bi + 1,
            )
        }),
{
    let pa = p.assignments@;
    let pl = p.phyrexian_life_payments@;
    let ci = buckets[bi].0;
    let x = ManaAssignment { pool_index: usable[t], cost_index: ci };
    let a1 = a.push(x);
    lemma_bucket_next(cost, buckets, bi);
    assert(!a.contains(x)) by {
        if a.contains(x) {
            let j = choose|j: int| 0 <= j < a.len() && a[j] == x;
            assert(a[j].pool_index != usable[t]);
        }
    }
    assert forall|y: ManaAssignment|
        #[trigger] pa.contains(y) && y.cost_index == ci && !a.contains(y) && y != x implies exists|t2: int|
            t + 1 <= t2 < usable.len() && #[trigger] usable[t2] == y.pool_index by {
        let t2 = choose|t2: int| t <= t2 < usable.len() && #[trigger] usable[t2] == y.pool_index;
        if t2 == t {
            if pa.contains(x) {
                lemma_same_unit(cost, pool, pa, pl, x, y);
            } else {
                assert(y == x);
            }
        }
    }
    if !pa.contains(x) {
        assert forall|y: ManaAssignment|
            #[trigger] pa.contains(y) && y.cost_index == ci && !a.contains(y) implies exists|t2: int|
                t + 1 <= t2 < usable.len() && #[trigger] usable[t2] == y.pool_index by {
            assert(y != x);
        }
    } else {
        assert(within(a1, p)) by {
            assert forall|j: int| 0 <= j < a1.len() implies pa.contains(#[trigger] a1[j]) by {
                if j < a.len() {
                    assert(a1[j] == a[j]);
                }
            }
        }
        assert forall|y: ManaAssignment|
            #[trigger] pa.contains(y) && !bucketed_from(buckets, bi, y.cost_index as int) implies a1.contains(y) by {
            assert(a.contains(y));
            let j = choose|j: int| 0 <= j < a.len() && a[j] == y;
            assert(a1[j] == y);
        }
        assert forall|y: ManaAssignment|
            #[trigger] pa.contains(y) && y.cost_index == ci && !a1.contains(y) implies exists|t2: int|
                t + 1 <= t2 < usable.len() && #[trigger] usable[t2] == y.pool_index by {
            assert(y != x) by {
                assert(a1[a.len() as int] == x);
            }
            assert(!a.contains(y)) by {
                if a.contains(y) {
                    let j = choose|j: int| 0 <= j < a.len() && a[j] == y;
                    assert(a1[j] == y);
                }
            }
        }
        if assigned_count(a, ci as int) + 1 == buckets[bi].1 {
            lemma_count_push(a, x, ci as int);
            lemma_shape_no_dup(cost, pool, pa, pl);
            assert(a1.no_duplicates()) by {
                lemma_shape_no_dup(cost, pool, a, l);
                assert forall|i: int, j: int| 0 <= i < a1.len() && 0 <= j < a1.len() && i != j implies a1[i] != a1[j] by {
                    if i < a.len() && j < a.len() {
                        assert(a1[i] == a[i] && a1[j] == a[j]);
                    } else if i < a.len() {
                        assert(a1[i] == a[i]);
                        assert(a[i].pool_index != usable[t]);
                    } else if j < a.len() {
                        assert(a1[j] == a[j]);
                        assert(a[j].pool_index != usable[t]);
                    }
                }
            }
            lemma_count_subset(a1, pa, ci as int);
            assert forall|y: ManaAssignment|
                #[trigger] pa.contains(y) && !bucketed_from(buckets, bi + 1, y.cost_index as int) implies a1.contains(y) by {
                if y.cost_index == ci {
                } else {
                    assert(!bucketed_from(buckets, bi, y.cost_index as int));
                }
            }
        }
    }
}

/// Once the units to choose from are used up, every unit `p` spends on
/// the bucket was chosen.
pub proof fn lemma_mid_end(
    cost: Seq<ManaCostComponent>,
    pool: Seq<ManaUnit>,
    ctx: SpendContext,
    p: ManaPaymentPlan,
    a: Seq<ManaAssignment>,
    l: Seq<usize>,
    buckets: Seq<(usize, u32)>,
    bi: int,
    usable: Seq<usize>,
)
    requires
        follows_mid(cost, pool, ctx, p, a, l, buckets, bi, usable, usable.len() as int),
        0 <= bi < buckets.len(),
    ensures
        assigned_count(a, buckets[bi].0 as int) >= buckets[bi].1,
{
    let pa = p.assignments@;
    let ci = buckets[bi].0 as int;
    lemma_shape_no_dup(cost, pool, pa, p.phyrexian_life_payments@);
    assert forall|j: int| 0 <= j < pa.len() && pa[j].cost_index == ci implies a.contains(#[trigger] pa[j]) by {
        assert(pa.contains(pa[j]));
        if !a.contains(pa[j]) {
            let t = choose|t: int| usable.len() <= t < usable.len() && #[trigger] usable[t] == pa[j].pool_index;
        }
    }
    lemma_count_subset(pa, a, ci);
}

/// `p` pays component `k` with the one unit of assignment `x`, which
/// matches `pip`.
pub open spec fn unit_payment(
    pool: Seq<ManaUnit>,
    ctx: SpendContext,
    p: ManaPaymentPlan,
    k: usize,
    pip: SpecificPip,
    x: ManaAssignment,
) -> bool {
    &&& p.assignments@.contains(x)
    &&& x.cost_index == k
    &&& spec_matches_pip(pool[x.pool_index as int], pip, ctx)
    &&& assigned_count(p.assignments@, k as int) == 1
    &&& !p.phyrexian_life_payments@.contains(k)
}

/// `p` pays component `k` with one unit matching `pip`.
pub open spec fn pays_with_unit(pool: Seq<ManaUnit>, ctx: SpendContext, p: ManaPaymentPlan, k: usize, pip: SpecificPip) -> bool {
    exists|x: ManaAssignment| #[trigger] unit_payment(pool, ctx, p, k, pip, x)
}

/// `p` pays component `k` with one unit matching `pip`, at index `i` of
/// the pool or later.
pub open spec fn unit_from(pool: Seq<ManaUnit>, ctx: SpendContext, p: ManaPaymentPlan, k: usize, pip: SpecificPip, i: int) -> bool {
    exists|x: ManaAssignment| #[trigger] unit_payment(pool, ctx, p, k, pip, x) && x.pool_index >= i
}

/// At the end of the walk, filling starts on the way to `p`.
pub proof fn lemma_walk_done(
    cost: Seq<ManaCostComponent>,
    pool: Seq<ManaUnit>,
    ctx: SpendContext,
    p: ManaPaymentPlan,
    a: Seq<ManaAssignment>,
    l: Seq<usize>,
    buckets: Seq<(usize, u32)>,
)
    requires
        follows_walk(cost, pool, ctx, p, a, l, buckets, cost.len() as int),
    ensures
        follows_fill(cost, pool, ctx, p, a, l, buckets, 0),
{
    let pa = p.assignments@;
    let pl = p.phyrexian_life_payments@;
    assert forall|x: ManaAssignment| #[trigger] pa.contains(x) && !bucketed_from(buckets, 0, x.cost_index as int) implies a.contains(x) by {
        let j = choose|j: int| 0 <= j < pa.len() && pa[j] == x;
        assert(pa[j].pool_index < pool.len());
    }
    assert forall|c: usize| #[trigger] pl.contains(c) implies l.contains(c) by {
        let j = choose|j: int| 0 <= j < pl.len() && pl[j] == c;
        assert(pl[j] < cost.len());
    }
}

/// Deferring component `k` to a bucket of as many units as `p` spends on
/// it keeps the walk on the way to `p`.
pub proof fn lemma_walk_defer(
    cost: Seq<ManaCostComponent>,
    pool: Seq<ManaUnit>,
    ctx: SpendContext,
    p: ManaPaymentPlan,
    a: Seq<ManaAssignment>,
    l: Seq<usize>,
    buckets: Seq<(usize, u32)>,
    k: usize,
    need: u32,
)
    requires
        follows_walk(cost, pool, ctx, p, a, l, buckets, k as int),
        k < cost.len(),
        assigned_count(p.assignments@, k as int) == need,
        !p.phyrexian_life_payments@.contains(k),
    ensures
        follows_walk(cost, pool, ctx, p, a, l, buckets.push((k, need)), k + 1),
{
    let b1 = buckets.push((k, need));
    let pa = p.assignments@;
    assert forall|c: int| bucketed_from(b1, 0, c) ==> bucketed_from(buckets, 0, c) || c == k by {
        if bucketed_from(b1, 0, c) {
            let w = choose|w: int| 0 <= w < b1.len() && #[trigger] b1[w].0 == c;
            if w < buckets.len() {
                assert(b1[w] == buckets[w]);
            }
        }
    }
    assert forall|c: int| bucketed_from(buckets, 0, c) ==> bucketed_from(b1, 0, c) by {
        if bucketed_from(buckets, 0, c) {
            let w = choose|w: int| 0 <= w < buckets.len() && #[trigger] buckets[w].0 == c;
            assert(b1[w] == buckets[w]);
        }
    }
    assert(bucketed_from(b1, 0, k as int)) by {
        assert(b1[buckets.len() as int].0 == k);
    }
    assert forall|bb: int| 0 <= bb < b1.len() implies assigned_count(pa, #[trigger] b1[bb].0 as int) == b1[bb].1 by {
        if bb < buckets.len() {
            assert(b1[bb] == buckets[bb]);
        }
    }
    assert forall|x: ManaAssignment|
        #[trigger] pa.contains(x) && x.cost_index < k + 1 && !bucketed_from(b1, 0, x.cost_index as int) implies a.contains(x) by {
    }
}

/// Paying component `k` with the unit `p` spends on it keeps the walk on
/// the way to `p`.
pub proof fn lemma_walk_unit(
    cost: Seq<ManaCostComponent>,
    pool: Seq<ManaUnit>,
    ctx: SpendContext,
    p: ManaPaymentPlan,
    a: Seq<ManaAssignment>,
    l: Seq<usize>,
    buckets: Seq<(usize, u32)>,
    k: usize,
    pip: SpecificPip,
    x: ManaAssignment,
)
    requires
        follows_walk(cost, pool, ctx, p, a, l, buckets, k as int),
        unit_payment(pool, ctx, p, k, pip, x),
        !bucketed_from(buckets, 0, k as int),
    ensures
        follows_walk(cost, pool, ctx, p, a.push(x), l, buckets, k + 1),
{
    let pa = p.assignments@;
    let a1 = a.push(x);
    lemma_shape_no_dup(cost, pool, pa, p.phyrexian_life_payments@);
    let one = seq![x];
    assert(one.no_duplicates());
    assert(assigned_count(one, k as int) == 1) by {
        assert(one.drop_last() =~= Seq::<ManaAssignment>::empty());
        assert(one.last() == x);
        assert(assigned_count(Seq::<ManaAssignment>::empty(), k as int) == 0);
    }
    lemma_count_subset(one, pa, k as int);
    assert forall|j: int| 0 <= j < a1.len() implies pa.contains(#[trigger] a1[j]) by {
        if j < a.len() {
            assert(a1[j] == a[j]);
        }
    }
    assert forall|y: ManaAssignment|
        #[trigger] pa.contains(y) && y.cost_index < k + 1 && !bucketed_from(buckets, 0, y.cost_index as int) implies a1.contains(y) by {
        if y.cost_index == k {
            assert(one.contains(y));
            assert(y == x);
            assert(a1[a.len() as int] == x);
        } else {
            assert(a.contains(y));
            let j = choose|j: int| 0 <= j < a.len() && a[j] == y;
            assert(a1[j] == y);
        }
    }
}

/// Paying component `k` with life, as `p` does, keeps the walk on the way
/// to `p`.
pub proof fn lemma_walk_life(
    cost: Seq<ManaCostComponent>,
    pool: Seq<ManaUnit>,
    ctx: SpendContext,
    p: ManaPaymentPlan,
    a: Seq<ManaAssignment>,
    l: Seq<usize>,
    buckets: Seq<(usize, u32)>,
    k: usize,
)
    requires
        follows_walk(cost, pool, ctx, p, a, l, buckets, k as int),
        p.phyrexian_life_payments@.contains(k),
        assigned_count(p.assignments@, k as int) == 0,
    ensures
        follows_walk(cost, pool, ctx, p, a, l.push(k), buckets, k + 1),
{
    let pa = p.assignments@;
    let l1 = l.push(k);
    assert forall|c: usize| #[trigger] l1.contains(c) implies p.phyrexian_life_payments@.contains(c) by {
        let j = choose|j: int| 0 <= j < l1.len() && l1[j] == c;
        if j < l.len() {
            assert(l1[j] == l[j]);
            assert(l.contains(c));
        } else {
            assert(c == k);
        }
    }
    assert forall|c: usize| #[trigger] p.phyrexian_life_payments@.contains(c) && c < k + 1 implies l1.contains(c) by {
        if c == k {
            assert(l1[l.len() as int] == c);
        } else {
            assert(l.contains(c));
            let j = choose|j: int| 0 <= j < l.len() && l[j] == c;
            assert(l1[j] == c);
        }
    }
    assert forall|y: ManaAssignment|
        #[trigger] pa.contains(y) && y.cost_index < k + 1 && !bucketed_from(buckets, 0, y.cost_index as int) implies a.contains(y) by {
        if y.cost_index == k {
            lemma_count_pos(pa, y);
        }
    }
}

/// How `p` pays component `k`, which the walk has reached.
pub open spec fn payment_choice(pool: Seq<ManaUnit>, ctx: SpendContext, p: ManaPaymentPlan, comp: ManaCostComponent, k: usize) -> bool {
    let n = assigned_count(p.assignments@, k as int);
    let l = p.phyrexian_life_payments@.contains(k);
    match comp {
        ManaCostComponent::Generic(g) => n == g && !l,
        ManaCostComponent::Colored(c) => pays_with_unit(pool, ctx, p, k, color_pip(c)),
        ManaCostComponent::Colorless => pays_with_unit(pool, ctx, p, k, SpecificPip::Colorless),
        ManaCostComponent::Snow => pays_with_unit(pool, ctx, p, k, SpecificPip::Snow),
        ManaCostComponent::Hybrid(x, y) => pays_with_unit(pool, ctx, p, k, color_pip(x)) || pays_with_unit(
            pool,
            ctx,
            p,
            k,
            color_pip(y),
        ),
        ManaCostComponent::MonoHybrid(c) => (n == 2 && !l) || pays_with_unit(pool, ctx, p, k, color_pip(c)),
        ManaCostComponent::PhyrexianColored(c) => pays_with_unit(pool, ctx, p, k, color_pip(c)) || (l && n == 0),
        ManaCostComponent::PhyrexianHybrid(x, y) => pays_with_unit(pool, ctx, p, k, color_pip(x)) || pays_with_unit(
            pool,
            ctx,
            p,
            k,
            color_pip(y),
        ) || (l && n == 0),
        ManaCostComponent::X => false,
    }
}

proof fn lemma_unit_of(
    cost: Seq<ManaCostComponent>,
    pool: Seq<ManaUnit>,
    ctx: SpendContext,
    p: ManaPaymentPlan,
    k: usize,
    req: PipReq,
) -> (x: ManaAssignment)
    requires
        plan_pays(cost, pool, ctx, p),
        assigned_count(p.assignments@, k as int) == 1,
        all_assigned_meet(pool, p.assignments@, k as int, req, ctx),
    ensures
        p.assignments@.contains(x),
        x.cost_index == k,
        spec_unit_meets(pool[x.pool_index as int], req, ctx),
{
    let x = lemma_count_witness(p.assignments@, k as int);
    let j = choose|j: int| 0 <= j < p.assignments@.len() && p.assignments@[j] == x;
    assert(p.assignments@[j].cost_index == k);
    x
}

/// A plan paying the cost pays component `k` in one of the ways the
/// search tries.
pub proof fn lemma_payment_choice(
    cost: Seq<ManaCostComponent>,
    pool: Seq<ManaUnit>,
    ctx: SpendContext,
    p: ManaPaymentPlan,
    k: usize,
)
    requires
        plan_pays(cost, pool, ctx, p),
        k < cost.len(),
    ensures
        payment_choice(pool, ctx, p, cost[k as int], k),
{
    let pa = p.assignments@;
    let pl = p.phyrexian_life_payments@;
    assert(component_paid(cost[k as int], pool, pa, pl, k as int, ctx));
    let n = assigned_count(pa, k as int);
    match cost[k as int] {
        ManaCostComponent::Colored(c) => {
            let x = lemma_unit_of(cost, pool, ctx, p, k, PipReq::One(color_pip(c)));
            assert(unit_payment(pool, ctx, p, k, color_pip(c), x));
        },
        ManaCostComponent::Colorless => {
            let x = lemma_unit_of(cost, pool, ctx, p, k, PipReq::One(SpecificPip::Colorless));
            assert(unit_payment(pool, ctx, p, k, SpecificPip::Colorless, x));
        },
        ManaCostComponent::Snow => {
            let x = lemma_unit_of(cost, pool, ctx, p, k, PipReq::One(SpecificPip::Snow));
            assert(unit_payment(pool, ctx, p, k, SpecificPip::Snow, x));
        },
        ManaCostComponent::Hybrid(c1, c2) => {
            let x = lemma_unit_of(cost, pool, ctx, p, k, PipReq::Either(color_pip(c1), color_pip(c2)));
            if spec_matches_pip(pool[x.pool_index as int], color_pip(c1), ctx) {
                assert(unit_payment(pool, ctx, p, k, color_pip(c1), x));
            } else {
                assert(unit_payment(pool, ctx, p, k, color_pip(c2), x));
            }
        },
        ManaCostComponent::MonoHybrid(c) => {
            if n != 2 {
                let x = lemma_unit_of(cost, pool, ctx, p, k, PipReq::One(color_pip(c)));
                assert(unit_payment(pool, ctx, p, k, color_pip(c), x));
            }
        },
        ManaCostComponent::PhyrexianColored(c) => {
            if n == 1 {
                let x = lemma_unit_of(cost, pool, ctx, p, k, PipReq::One(color_pip(c)));
                assert(unit_payment(pool, ctx, p, k, color_pip(c), x));
            }
        },
        ManaCostComponent::PhyrexianHybrid(c1, c2) => {
            if n == 1 {
                let x = lemma_unit_of(cost, pool, ctx, p, k, PipReq::Either(color_pip(c1), color_pip(c2)));
                if spec_matches_pip(pool[x.pool_index as int], color_pip(c1), ctx) {
                    assert(unit_payment(pool, ctx, p, k, color_pip(c1), x));
                } else {
                    assert(unit_payment(pool, ctx, p, k, color_pip(c2), x));
                }
            }
        },
        _ => {},
    }
}

// =============================================================================
// X expansion, deduplication and the entry points
// =============================================================================

/// The cost has an `{X}` pip.
pub open spec fn spec_has_x(s: Seq<ManaCostComponent>) -> bool {
    exists|i: int| 0 <= i < s.len() && s[i] == ManaCostComponent::X
}

pub(crate) fn has_x(cost: &ManaCost) -> (b: bool)
    ensures
        b == spec_has_x(cost.components@),
{
    let mut i: usize = 0;
    while i < cost.components.len()
        invariant
            i <= cost.components@.len(),
            forall|k: int| 0 <= k < i ==> cost.components@[k] != ManaCostComponent::X,
        decreases cost.components@.len() - i,
    {
        if cost.components[i] == ManaCostComponent::X {
            return true;
        }
        i = i + 1;
    }
    false
}

/// Replace each `{X}` by `{x}` generic.
fn expand_x(cost: &ManaCost, x: u32) -> (r: ManaCost)
    ensures
        r.components@ == spec_expand_x(cost.components@, x),
{
    let mut out: Vec<ManaCostComponent> = Vec::new();
    let mut i: usize = 0;
    while i < cost.components.len()
        invariant
            i <= cost.components@.len(),
            out@ == spec_expand_x(cost.components@.take(i as int), x),
        decreases cost.components@.len() - i,
    {
        let c = cost.components[i];
        if c == ManaCostComponent::X {
            out.push(ManaCostComponent::Generic(x));
        } else {
            out.push(c);
        }
        proof {
            assert(spec_expand_x(cost.components@.take(i + 1), x) =~= spec_expand_x(
                cost.components@.take(i as int),
                x,
            ).push(out@.last()));
        }
        i = i + 1;
    }
    proof {
        assert(cost.components@.take(i as int) =~= cost.components@);
    }
    ManaCost { components: out }
}

/// Occurrences of `x` in `s`.
pub open spec fn seq_count<T>(s: Seq<T>, x: T) -> nat
    decreases s.len(),
{
    if s.len() == 0 {
        0
    } else {
        seq_count(s.drop_last(), x) + if s.last() == x {
            1nat
        } else {
            0nat
        }
    }
}

pub proof fn lemma_seq_count_absent<T>(s: Seq<T>, x: T)
    requires
        !s.contains(x),
    ensures
        seq_count(s, x) == 0,
    decreases s.len(),
{
    if s.len() > 0 {
        assert(!s.drop_last().contains(x)) by {
            if s.drop_last().contains(x) {
                let j = choose|j: int| 0 <= j < s.drop_last().len() && s.drop_last()[j] == x;
                assert(s[j] == x);
            }
        }
        lemma_seq_count_absent(s.drop_last(), x);
        assert(s.last() != x) by {
            if s.last() == x {
                assert(s[s.len() - 1] == x);
            }
        }
    }
}

/// The same elements with the same multiplicities.
pub open spec fn same_multiset<T>(s1: Seq<T>, s2: Seq<T>) -> bool {
    forall|x: T| #[trigger] seq_count(s1, x) == seq_count(s2, x)
}

fn count_u128(v: &Vec<u128>, x: u128) -> (n: usize)
    ensures
        n == seq_count(v@, x),
{
    let mut n: usize = 0;
    let mut i: usize = 0;
    while i < v.len()
        invariant
            i <= v@.len(),
            n == seq_count(v@.take(i as int), x),
            n <= i,
        decreases v@.len() - i,
    {
        proof {
            assert(v@.take(i + 1).drop_last() =~= v@.take(i as int));
        }
        if v[i] == x {
            n = n + 1;
        }
        i = i + 1;
    }
    proof {
        assert(v@.take(i as int) =~= v@);
    }
    n
}

fn count_usize(v: &Vec<usize>, x: usize) -> (n: usize)
    ensures
        n == seq_count(v@, x),
{
    let mut n: usize = 0;
    let mut i: usize = 0;
    while i < v.len()
        invariant
            i <= v@.len(),
            n == seq_count(v@.take(i as int), x),
            n <= i,
        decreases v@.len() - i,
    {
        proof {
            assert(v@.take(i + 1).drop_last() =~= v@.take(i as int));
        }
        if v[i] == x {
            n = n + 1;
        }
        i = i + 1;
    }
    proof {
        assert(v@.take(i as int) =~= v@);
    }
    n
}

fn same_multiset_u128(v1: &Vec<u128>, v2: &Vec<u128>) -> (b: bool)
    ensures
        b == same_multiset(v1@, v2@),
{
    let mut i: usize = 0;
    while i < v1.len()
        invariant
            i <= v1@.len(),
            forall|k: int| 0 <= k < i ==> seq_count(v1@, #[trigger] v1@[k]) == seq_count(v2@, v1@[k]),
        decreases v1@.len() - i,
    {
        if count_u128(v1, v1[i]) != count_u128(v2, v1[i]) {
            return false;
        }
        i = i + 1;
    }
    let mut j: usize = 0;
    while j < v2.len()
        invariant
            j <= v2@.len(),
            forall|k: int| 0 <= k < v1@.len() ==> seq_count(v1@, #[trigger] v1@[k]) == seq_count(v2@, v1@[k]),
            forall|k: int| 0 <= k < j ==> seq_count(v1@, #[trigger] v2@[k]) == seq_count(v2@, v2@[k]),
        decreases v2@.len() - j,
    {
        if count_u128(v1, v2[j]) != count_u128(v2, v2[j]) {
            return false;
        }
        j = j + 1;
    }
    proof {
        assert forall|x: u128| #[trigger] seq_count(v1@, x) == seq_count(v2@, x) by {
            if v1@.contains(x) {
                let k = choose|k: int| 0 <= k < v1@.len() && v1@[k] == x;
                assert(seq_count(v1@, v1@[k]) == seq_count(v2@, v1@[k]));
            } else if v2@.contains(x) {
                let k = choose|k: int| 0 <= k < v2@.len() && v2@[k] == x;
                assert(seq_count(v1@, v2@[k]) == seq_count(v2@, v2@[k]));
            } else {
                lemma_seq_count_absent(v1@, x);
                lemma_seq_count_absent(v2@, x);
            }
        }
    }
    true
}

fn same_multiset_usize(v1: &Vec<usize>, v2: &Vec<usize>) -> (b: bool)
    ensures
        b == same_multiset(v1@, v2@),
{
    let mut i: usize = 0;
    while i < v1.len()
        invariant
            i <= v1@.len(),
            forall|k: int| 0 <= k < i ==> seq_count(v1@, #[trigger] v1@[k]) == seq_count(v2@, v1@[k]),
        decreases v1@.len() - i,
    {
        if count_usize(v1, v1[i]) != count_usize(v2, v1[i]) {
            return false;
        }
        i = i + 1;
    }
    let mut j: usize = 0;
    while j < v2.len()
        invariant
            j <= v2@.len(),
            forall|k: int| 0 <= k < v1@.len() ==> seq_count(v1@, #[trigger] v1@[k]) == seq_count(v2@, v1@[k]),
            forall|k: int| 0 <= k < j ==> seq_count(v1@, #[trigger] v2@[k]) == seq_count(v2@, v2@[k]),
        decreases v2@.len() - j,
    {
        if count_usize(v1, v2[j]) != count_usize(v2, v2[j]) {
            return false;
        }
        j = j + 1;
    }
    proof {
        assert forall|x: usize| #[trigger] seq_count(v1@, x) == seq_count(v2@, x) by {
            if v1@.contains(x) {
                let k = choose|k: int| 0 <= k < v1@.len() && v1@[k] == x;
                assert(seq_count(v1@, v1@[k]) == seq_count(v2@, v1@[k]));
            } else if v2@.contains(x) {
                let k = choose|k: int| 0 <= k < v2@.len() && v2@[k] == x;
                assert(seq_count(v1@, v2@[k]) == seq_count(v2@, v2@[k]));
            } else {
                lemma_seq_count_absent(v1@, x);
                lemma_seq_count_absent(v2@, x);
            }
        }
    }
    true
}

pub open spec fn spec_mana_color_index(c: ManaColor) -> nat {
    match c {
        ManaColor::White => 0,
        ManaColor::Blue => 1,
        ManaColor::Black => 2,
        ManaColor::Red => 3,
        ManaColor::Green => 4,
        ManaColor::Colorless => 5,
    }
}

/// Class of an assignment for plan equivalence: the component it pays and
/// the (color, snow) kind of the unit spent.
pub open spec fn assignment_key(pool: Seq<ManaUnit>, x: ManaAssignment) -> u128 {
    let u = pool[x.pool_index as int];
    (x.cost_index as nat * 16 + spec_mana_color_index(u.color) * 2 + if u.restrictions.is_snow {
        1nat
    } else {
        0nat
    }) as u128
}

/// `assignment_key` in `pool`, as a function.
pub open spec fn key_of(pool: Seq<ManaUnit>) -> spec_fn(ManaAssignment) -> u128 {
    |x: ManaAssignment| assignment_key(pool, x)
}

/// Two plans are equivalent when they spend units of the same
/// (color, snow) kinds on the same components and pay life for the same
/// components. Unit restrictions do not matter: both units were spendable.
pub open spec fn plans_equivalent(pool: Seq<ManaUnit>, p1: ManaPaymentPlan, p2: ManaPaymentPlan) -> bool {
    &&& same_multiset(
        p1.assignments@.map_values(key_of(pool)),
        p2.assignments@.map_values(key_of(pool)),
    )
    &&& same_multiset(p1.phyrexian_life_payments@, p2.phyrexian_life_payments@)
}

/// Assignment indices point into the pool.
pub open spec fn plan_indices_ok(pool: Seq<ManaUnit>, p: ManaPaymentPlan) -> bool {
    forall|j: int| 0 <= j < p.assignments@.len() ==> #[trigger] p.assignments@[j].pool_index < pool.len()
}

pub open spec fn same_plan(p1: ManaPaymentPlan, p2: ManaPaymentPlan) -> bool {
    &&& p1.assignments@ == p2.assignments@
    &&& p1.phyrexian_life_payments@ == p2.phyrexian_life_payments@
    &&& p1.convoke_creatures@ == p2.convoke_creatures@
    &&& p1.delve_cards@ == p2.delve_cards@
}

fn mana_color_index(c: ManaColor) -> (n: u128)
    ensures
        n == spec_mana_color_index(c),
{
    match c {
        ManaColor::White => 0,
        ManaColor::Blue => 1,
        ManaColor::Black => 2,
        ManaColor::Red => 3,
        ManaColor::Green => 4,
        ManaColor::Colorless => 5,
    }
}

fn plan_keys(plan: &ManaPaymentPlan, pool: &ManaPool) -> (keys: Vec<u128>)
    requires
        plan_indices_ok(pool.pool@, *plan),
    ensures
        keys@ == plan.assignments@.map_values(key_of(pool.pool@)),
{
    let mut keys: Vec<u128> = Vec::new();
    let mut i: usize = 0;
    while i < plan.assignments.len()
        invariant
            i <= plan.assignments@.len(),
            plan_indices_ok(pool.pool@, *plan),
            keys@ == plan.assignments@.take(i as int).map_values(key_of(pool.pool@)),
        decreases plan.assignments@.len() - i,
    {
        let x = plan.assignments[i];
        let u = pool.pool[x.pool_index];
        let snow: u128 = if u.restrictions.is_snow { 1 } else { 0 };
        let k: u128 = (x.cost_index as u128) * 16 + mana_color_index(u.color) * 2 + snow;
        keys.push(k);
        proof {
            assert(plan.assignments@.take(i + 1).map_values(key_of(pool.pool@))
                =~= plan.assignments@.take(i as int).map_values(key_of(pool.pool@)).push(k));
        }
        i = i + 1;
    }
    proof {
        assert(plan.assignments@.take(i as int) =~= plan.assignments@);
    }
    keys
}

/// Index of the first kept plan equivalent to the plan with `keys` and
/// `life`, if any.
fn find_equivalent(
    keys: &Vec<u128>,
    life: &Vec<usize>,
    out: &Vec<ManaPaymentPlan>,
    out_keys: &Vec<Vec<u128>>,
    Ghost(ps): Ghost<Seq<ManaUnit>>,
    Ghost(p): Ghost<ManaPaymentPlan>,
) -> (r: Option<usize>)
    requires
        keys@ == p.assignments@.map_values(key_of(ps)),
        life@ == p.phyrexian_life_payments@,
        out_keys@.len() == out@.len(),
        forall|t: int| 0 <= t < out@.len() ==> #[trigger] out_keys@[t]@ == out@[t].assignments@.map_values(key_of(ps)),
    ensures
        match r {
            Some(t) => t < out@.len() && plans_equivalent(ps, p, out@[t as int]),
            None => forall|t: int| 0 <= t < out@.len() ==> !plans_equivalent(ps, p, #[trigger] out@[t]),
        },
{
    // The most recently kept plans are looked at first: plans found one
    // after the other tend to fall into the same class.
    let mut i: usize = out.len();
    while i > 0
        invariant
            keys@ == p.assignments@.map_values(key_of(ps)),
            life@ == p.phyrexian_life_payments@,
            out_keys@.len() == out@.len(),
            forall|t: int| 0 <= t < out@.len() ==> #[trigger] out_keys@[t]@ == out@[t].assignments@.map_values(key_of(ps)),
            i <= out@.len(),
            forall|t: int| i <= t < out@.len() ==> !plans_equivalent(ps, p, #[trigger] out@[t]),
        decreases i,
    {
        i = i - 1;
        let same_keys = same_multiset_u128(keys, &out_keys[i]);
        let same_life = same_multiset_usize(life, &out[i].phyrexian_life_payments);
        proof {
            assert(out_keys@[i as int]@ == out@[i as int].assignments@.map_values(key_of(ps)));
        }
        if same_keys && same_life {
            return Some(i);
        }
    }
    None
}

/// Drop functionally-equivalent plans, keeping the first of each class.
/// Besides the kept plans, gives for each kept plan the input plan it
/// copies, and for each input plan a kept plan equivalent to it.
fn dedup_plans_with_pool(plans: Vec<ManaPaymentPlan>, pool: &ManaPool) -> (res: (Vec<ManaPaymentPlan>, Ghost<Seq<int>>, Ghost<Seq<int>>))
    requires
        forall|i: int| 0 <= i < plans@.len() ==> #[trigger] plan_indices_ok(pool.pool@, plans@[i]),
    ensures
        res.0@.len() <= plans@.len(),
        res.1@.len() == res.0@.len(),
        forall|i: int| 0 <= i < res.0@.len() ==> 0 <= #[trigger] res.1@[i] < plans@.len() && same_plan(res.0@[i], plans@[res.1@[i]]),
        forall|i: int, j: int| 0 <= i < j < res.0@.len() ==> !plans_equivalent(pool.pool@, #[trigger] res.0@[i], #[trigger] res.0@[j]),
        res.2@.len() == plans@.len(),
        forall|k: int| 0 <= k < plans@.len() ==> 0 <= #[trigger] res.2@[k] < res.0@.len() && plans_equivalent(pool.pool@, plans@[k], res.0@[res.2@[k]]),
{
    let ghost ps = pool.pool@;
    let mut out: Vec<ManaPaymentPlan> = Vec::new();
    let mut out_keys: Vec<Vec<u128>> = Vec::new();
    // src[i]: the input plan that out[i] copies; rep[k]: the kept plan
    // equivalent to input plan k.
    let ghost mut src: Seq<int> = Seq::empty();
    let ghost mut rep: Seq<int> = Seq::empty();
    let mut j: usize = 0;
    while j < plans.len()
        invariant
            ps == pool.pool@,
            forall|i: int| 0 <= i < plans@.len() ==> #[trigger] plan_indices_ok(ps, plans@[i]),
            j <= plans@.len(),
            out@.len() <= j,
            out_keys@.len() == out@.len(),
            forall|i: int| 0 <= i < out@.len() ==> #[trigger] out_keys@[i]@ == out@[i].assignments@.map_values(key_of(ps)),
            src.len() == out@.len(),
            forall|i: int| 0 <= i < out@.len() ==> 0 <= #[trigger] src[i] < plans@.len() && same_plan(out@[i], plans@[src[i]]),
            forall|i1: int, i2: int| 0 <= i1 < i2 < out@.len() ==> !plans_equivalent(ps, #[trigger] out@[i1], #[trigger] out@[i2]),
            rep.len() == j,
            forall|k: int| 0 <= k < j ==> 0 <= #[trigger] rep[k] < out@.len() && plans_equivalent(ps, plans@[k], out@[rep[k]]),
        decreases plans@.len() - j,
    {
        let p = &plans[j];
        proof {
            assert(plan_indices_ok(ps, plans@[j as int]));
        }
        let keys = plan_keys(p, pool);
        let found = find_equivalent(&keys, &p.phyrexian_life_payments, &out, &out_keys, Ghost(ps), Ghost(plans@[j as int]));
        let ghost o0 = out@;
        match found {
            None => {
                let cl = p.clone();
                out.push(cl);
                out_keys.push(keys);
                proof {
                    let n = o0.len() as int;
                    assert(same_plan(out@[n], plans@[j as int]));
                    lemma_equiv_same_plan(ps, out@[n], plans@[j as int], plans@[j as int]);
                    lemma_equiv_refl(ps, plans@[j as int]);
                    src = src.push(j as int);
                    rep = rep.push(n);
                    assert forall|i1: int, i2: int| 0 <= i1 < i2 < out@.len() implies !plans_equivalent(ps, #[trigger] out@[i1], #[trigger] out@[i2]) by {
                        assert(out@[i1] == o0[i1]);
                        if i2 == n {
                            assert(!plans_equivalent(ps, plans@[j as int], o0[i1]));
                            lemma_equiv_symmetric(ps, o0[i1], plans@[j as int]);
                            lemma_equiv_same_plan(ps, out@[i2], plans@[j as int], o0[i1]);
                        } else {
                            assert(out@[i2] == o0[i2]);
                        }
                    }
                    assert forall|i: int| 0 <= i < out@.len() implies 0 <= #[trigger] src[i] < plans@.len() && same_plan(out@[i], plans@[src[i]]) by {
                        if i < n {
                            assert(out@[i] == o0[i]);
                        }
                    }
                    assert forall|k: int| 0 <= k < j + 1 implies 0 <= #[trigger] rep[k] < out@.len() && plans_equivalent(ps, plans@[k], out@[rep[k]]) by {
                        if k < j {
                            assert(out@[rep[k]] == o0[rep[k]]);
                        }
                    }
                    assert forall|i: int| 0 <= i < out@.len() implies #[trigger] out_keys@[i]@ == out@[i].assignments@.map_values(key_of(ps)) by {
                        if i < n {
                            assert(out@[i] == o0[i]);
                        }
                    }
                }
            },
            Some(t) => {
                proof {
                    rep = rep.push(t as int);
                }
            },
        }
        j = j + 1;
    }
    (out, Ghost(src), Ghost(rep))
}

pub proof fn lemma_equiv_refl(pool: Seq<ManaUnit>, p: ManaPaymentPlan)
    ensures
        plans_equivalent(pool, p, p),
{
}

pub proof fn lemma_equiv_symmetric(pool: Seq<ManaUnit>, p1: ManaPaymentPlan, p2: ManaPaymentPlan)
    ensures
        plans_equivalent(pool, p1, p2) == plans_equivalent(pool, p2, p1),
{
}

/// Equivalence only looks at the plans' contents.
pub proof fn lemma_equiv_same_plan(pool: Seq<ManaUnit>, p1: ManaPaymentPlan, p2: ManaPaymentPlan, q: ManaPaymentPlan)
    requires
        same_plan(p1, p2),
    ensures
        plans_equivalent(pool, p1, q) == plans_equivalent(pool, p2, q),
        plans_equivalent(pool, q, p1) == plans_equivalent(pool, q, p2),
{
}

/// Enumerate every valid, deduplicated payment plan for paying `cost` from
/// `pool` in `ctx`. `x_value` must be given when the cost holds `{X}`.
///
/// The empty cost gives one trivial plan; an unpayable cost gives none.
/// Simple costs give at most one plan: without a `{S}` pip they are paid
/// greedily first; when that finds nothing, or with a `{S}` pip, the
/// first plan of the full search is kept, so a plan is found whenever one
/// exists. Other costs are solved by backtracking over every choice and
/// then deduplicated.
pub fn enumerate_payment_plans(
    cost: &ManaCost,
    pool: &ManaPool,
    x_value: Option<u32>,
    ctx: &SpendContext,
) -> (plans: Vec<ManaPaymentPlan>)
    requires
        spec_has_x(cost.components@) ==> x_value is Some,
    ensures
        forall|i: int| 0 <= i < plans@.len() ==> #[trigger] plan_pays(expanded_components(*cost, x_value), pool.pool@, *ctx, plans@[i]),
        forall|i: int, j: int| 0 <= i < j < plans@.len() ==> !plans_equivalent(pool.pool@, #[trigger] plans@[i], #[trigger] plans@[j]),
        expanded_components(*cost, x_value).len() == 0 ==> plans@.len() == 1,
        ({
            let e = expanded_components(*cost, x_value);
            (forall|i: int| 0 <= i < e.len() ==> #[trigger] spec_is_simple(e[i])) ==> plans@.len() <= 1
        }),
        ({
            let e = expanded_components(*cost, x_value);
            plans@.len() > 0 <==> exists|p: ManaPaymentPlan| #[trigger] plan_pays(e, pool.pool@, *ctx, p)
        }),
        ({
            let e = expanded_components(*cost, x_value);
            (forall|i: int| 0 <= i < e.len() ==> #[trigger] spec_is_simple(e[i])) && !has_snow_pip(e)
                && simple_affordable(e, pool.pool@, *ctx) ==> plans@.len() == 1
        }),
        ({
            let e = expanded_components(*cost, x_value);
            (exists|i: int| 0 <= i < e.len() && !#[trigger] spec_is_simple(e[i])) ==> forall|p: ManaPaymentPlan|
                #[trigger] plan_pays(e, pool.pool@, *ctx, p) ==> exists|i: int|
                    0 <= i < plans@.len() && plans_equivalent(pool.pool@, p, #[trigger] plans@[i])
        }),
{
    let x = match x_value {
        Some(v) => v,
        None => 0,
    };
    let expanded = if has_x(cost) {
        expand_x(cost, x)
    } else {
        let c = cost.clone();
        proof {
            assert(c.components@ =~= spec_expand_x(cost.components@, x));
        }
        c
    };
    let ghost e = expanded.components@;
    if expanded.is_empty() {
        let mut v: Vec<ManaPaymentPlan> = Vec::new();
        let p = ManaPaymentPlan::empty();
        proof {
            assert(plan_pays(e, pool.pool@, *ctx, p));
        }
        v.push(p);
        proof {
            assert(plan_pays(e, pool.pool@, *ctx, v@[0]));
            assert(e == expanded_components(*cost, x_value));
        }
        return v;
    }
    let simple = expanded.is_simple();
    if simple && !cost_has_snow(&expanded) {
        match greedy_simple_pay(&expanded, pool, ctx) {
            Some(p) => {
                let mut v: Vec<ManaPaymentPlan> = Vec::new();
                v.push(p);
                proof {
                    assert(plan_pays(e, pool.pool@, *ctx, v@[0]));
                    assert(e == expanded_components(*cost, x_value));
                }
                return v;
            },
            None => {},
        }
    }
    let out = search_plans(&expanded, pool, ctx);
    proof {
        if out@.len() > 0 {
            assert(plan_pays(e, pool.pool@, *ctx, out@[0]));
        }
    }
    let mut out = out;
    if simple {
        // A simple cost gives one plan: keep the first.
        let ghost o0 = out@;
        while out.len() > 1
            invariant
                1 <= out@.len() <= o0.len() || out@.len() == o0.len(),
                forall|t: int| 0 <= t < out@.len() ==> out@[t] == o0[t],
            decreases out@.len(),
        {
            out.pop();
        }
        assert(out@.len() <= 1);
    }
    proof {
        assert(simple == (forall|i: int| 0 <= i < e.len() ==> #[trigger] spec_is_simple(e[i])));
        assert(e == expanded_components(*cost, x_value));
    }
    out
}

/// Every plan for `expanded` that a full search over the pool finds, one
/// per equivalence class: each pays it, and every plan that pays it is
/// equivalent to one of them.
fn search_plans(expanded: &ManaCost, pool: &ManaPool, ctx: &SpendContext) -> (out: Vec<ManaPaymentPlan>)
    requires
        forall|i: int| 0 <= i < expanded.components@.len() ==> expanded.components@[i] != ManaCostComponent::X,
    ensures
        forall|i: int| 0 <= i < out@.len() ==> #[trigger] plan_pays(expanded.components@, pool.pool@, *ctx, out@[i]),
        forall|i: int, j: int| 0 <= i < j < out@.len() ==> !plans_equivalent(pool.pool@, #[trigger] out@[i], #[trigger] out@[j]),
        forall|p: ManaPaymentPlan|
            #[trigger] plan_pays(expanded.components@, pool.pool@, *ctx, p) ==> exists|i: int|
                0 <= i < out@.len() && plans_equivalent(pool.pool@, p, #[trigger] out@[i]),
        out@.len() > 0 <==> exists|p: ManaPaymentPlan| #[trigger] plan_pays(expanded.components@, pool.pool@, *ctx, p),
{
    let ghost e = expanded.components@;
    let mut plans: Vec<ManaPaymentPlan> = Vec::new();
    let mut consumed: Vec<bool> = Vec::new();
    let mut z: usize = 0;
    while z < pool.pool.len()
        invariant
            z <= pool.pool@.len(),
            consumed@.len() == z,
            forall|i: int| 0 <= i < z ==> !consumed@[i],
        decreases pool.pool@.len() - z,
    {
        consumed.push(false);
        z = z + 1;
    }
    let mut plan = ManaPaymentPlan::empty();
    let mut buckets: Vec<(usize, u32)> = Vec::new();
    proof {
        assert forall|ci: int| 0 <= ci < e.len() implies #[trigger] unpaid(plan.assignments@, plan.phyrexian_life_payments@, ci) by {
            lemma_count_zero(plan.assignments@, ci);
        }
    }
    let ghost a_init = plan.assignments@;
    let ghost l_init = plan.phyrexian_life_payments@;
    let ghost b_init = buckets@;
    let ghost n_init = plans@.len();
    backtrack_specific(&expanded, pool, ctx, &mut consumed, &mut plan, &mut buckets, 0, &mut plans);
    proof {
        assert forall|i: int| 0 <= i < plans@.len() implies #[trigger] plan_indices_ok(pool.pool@, plans@[i]) by {
            assert(plan_pays(e, pool.pool@, *ctx, plans@[i]));
        }
    }
    let ghost raw = plans@;
    proof {
        assert(n_init == 0);
        assert(a_init.len() == 0 && l_init.len() == 0 && b_init.len() == 0);
        assert forall|p: ManaPaymentPlan| #[trigger] plan_pays(e, pool.pool@, *ctx, p) implies found_in(p, raw, 0) by {
            assert(follows_walk(e, pool.pool@, *ctx, p, a_init, l_init, b_init, 0));
        }
    }
    let (out, Ghost(src), Ghost(rep)) = dedup_plans_with_pool(plans, pool);
    proof {
        assert forall|p: ManaPaymentPlan| #[trigger] plan_pays(e, pool.pool@, *ctx, p) implies exists|i: int|
            0 <= i < out@.len() && plans_equivalent(pool.pool@, p, #[trigger] out@[i]) by {
            let j = choose|j: int| 0 <= j < raw.len() && covers(p, #[trigger] raw[j]);
            lemma_covers_equivalent(e, pool.pool@, *ctx, p, raw[j]);
            lemma_equiv_trans(pool.pool@, p, raw[j], out@[rep[j]]);
        }
        assert forall|i: int| 0 <= i < out@.len() implies #[trigger] plan_pays(e, pool.pool@, *ctx, out@[i]) by {
            assert(same_plan(out@[i], raw[src[i]]));
            assert(plan_pays(e, pool.pool@, *ctx, raw[src[i]]));
        }
        if out@.len() > 0 {
            assert(plan_pays(e, pool.pool@, *ctx, out@[0]));
        }
    }
    out
}

fn cost_has_snow(cost: &ManaCost) -> (b: bool)
    ensures
        b == has_snow_pip(cost.components@),
{
    let mut i: usize = 0;
    while i < cost.components.len()
        invariant
            i <= cost.components@.len(),
            forall|k: int| 0 <= k < i ==> cost.components@[k] != ManaCostComponent::Snow,
        decreases cost.components@.len() - i,
    {
        if cost.components[i] == ManaCostComponent::Snow {
            return true;
        }
        i = i + 1;
    }
    false
}

/// The components of `cost` with `{X}` read as `x_value` (as 0 when none
/// is given).
pub open spec fn expanded_components(cost: ManaCost, x_value: Option<u32>) -> Seq<ManaCostComponent> {
    spec_expand_x(cost.components@, match x_value {
        Some(v) => v,
        None => 0,
    })
}

/// `plan` pays `cost` (see [`plan_pays`]); kept opaque so that it can
/// serve as a trigger.
#[verifier::opaque]
pub open spec fn pays_cost(cost: Seq<ManaCostComponent>, pool: Seq<ManaUnit>, ctx: SpendContext, plan: ManaPaymentPlan) -> bool {
    plan_pays(cost, pool, ctx, plan)
}

/// Is there at least one valid plan? Exactly when the payment plans are
/// not empty.
pub fn can_afford(cost: &ManaCost, pool: &ManaPool, x_value: Option<u32>, ctx: &SpendContext) -> (b: bool)
    requires
        spec_has_x(cost.components@) ==> x_value is Some,
    ensures
        ({
            let e = expanded_components(*cost, x_value);
            b <==> exists|p: ManaPaymentPlan| #[trigger] pays_cost(e, pool.pool@, *ctx, p)
        }),
        expanded_components(*cost, x_value).len() == 0 ==> b,
{
    let plans = enumerate_payment_plans(cost, pool, x_value, ctx);
    proof {
        let e = expanded_components(*cost, x_value);
        reveal(pays_cost);
        if plans@.len() > 0 {
            assert(plan_pays(e, pool.pool@, *ctx, plans@[0]));
            assert(pays_cost(e, pool.pool@, *ctx, plans@[0]));
        }
        if exists|p: ManaPaymentPlan| #[trigger] pays_cost(e, pool.pool@, *ctx, p) {
            let p = choose|p: ManaPaymentPlan| #[trigger] pays_cost(e, pool.pool@, *ctx, p);
            assert(plan_pays(e, pool.pool@, *ctx, p));
        }
    }
    plans.len() != 0
}

} // verus!
