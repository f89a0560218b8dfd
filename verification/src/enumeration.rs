//! Building blocks of legal-action enumeration: cost reductions over the
//! generic part of a mana cost, pool color counts, mode subsets of modal
//! spells, and capped combinatorial enumerators (combinations,
//! permutations, subsets up to interchangeable items).

use std::collections::HashMap;

use vstd::prelude::*;

use crate::objects::ObjectId;
use crate::mana::{lemma_pips_prefix, spec_count_color, spec_mana_color_index, ManaCost, ManaCostComponent, ManaPool};
use crate::registry::{ModalSpec, ModeChoice};
use crate::types::{spec_color_to_mana, Color, ManaColor};

verus! {

/// Upper bound on how many results a combinatorial enumerator emits.
/// Past this many the enumerator stops; the canonical (input-order,
/// lowest-index) results come first.
pub const MAX_COMBAT_ENUM: usize = 1024;

// =============================================================================
// Generic-cost arithmetic
// =============================================================================

/// `cs` with `by` generic mana taken off its `{N}` pips, left to right:
/// a pip that `by` still covers disappears, the first one it does not
/// cover shrinks, and every other component stays.
pub open spec fn spec_reduce_generic(cs: Seq<ManaCostComponent>, by: nat) -> Seq<ManaCostComponent>
    decreases cs.len(),
{
    if cs.len() == 0 || by == 0 {
        cs
    } else {
        match cs[0] {
            ManaCostComponent::Generic(n) => if n <= by {
                spec_reduce_generic(cs.drop_first(), (by - n) as nat)
            } else {
                seq![ManaCostComponent::Generic((n - by) as u32)] + cs.drop_first()
            },
            other => seq![other] + spec_reduce_generic(cs.drop_first(), by),
        }
    }
}

/// A copy of `cost` whose generic part is reduced by `by` (delve,
/// convoke and improvise pay generic mana only). Whole pips are drained
/// first, left to right, then one is partly consumed; any reduction
/// beyond the generic total is ignored.
pub fn reduce_generic_cost(cost: &ManaCost, by: u32) -> (out: ManaCost)
    ensures
        out.components@ == spec_reduce_generic(cost.components@, by as nat),
{
    let ghost cs = cost.components@;
    let mut out: Vec<ManaCostComponent> = Vec::new();
    let mut remaining: u32 = by;
    let mut i: usize = 0;
    proof {
        assert(cs.skip(0) =~= cs);
        assert(out@ + spec_reduce_generic(cs, by as nat) =~= spec_reduce_generic(cs, by as nat));
    }
    while i < cost.components.len()
        invariant
            i <= cs.len(),
            cs == cost.components@,
            out@ + spec_reduce_generic(cs.skip(i as int), remaining as nat) == spec_reduce_generic(cs, by as nat),
        decreases cs.len() - i,
    {
        let ghost before = out@;
        let ghost rest = cs.skip(i as int);
        proof {
            assert(rest.drop_first() =~= cs.skip(i + 1));
            assert(rest[0] == cs[i as int]);
        }
        let c = cost.components[i];
        if remaining == 0 {
            out.push(c);
            proof {
                assert(rest =~= seq![c] + cs.skip(i + 1));
                assert(out@ + cs.skip(i + 1) =~= before + rest);
            }
        } else {
            match c {
                ManaCostComponent::Generic(n) => {
                    if n <= remaining {
                        remaining = remaining - n;
                    } else {
                        out.push(ManaCostComponent::Generic(n - remaining));
                        proof {
                            assert(out@ + cs.skip(i + 1) =~= before + (seq![ManaCostComponent::Generic((n - remaining) as u32)] + cs.skip(i + 1)));
                        }
                        remaining = 0;
                    }
                },
                _ => {
                    out.push(c);
                    proof {
                        assert(out@ + spec_reduce_generic(cs.skip(i + 1), remaining as nat) =~= before + (seq![c]
                            + spec_reduce_generic(cs.skip(i + 1), remaining as nat)));
                    }
                },
            }
        }
        i = i + 1;
    }
    proof {
        assert(cs.skip(i as int) =~= Seq::<ManaCostComponent>::empty());
        assert(out@ + Seq::<ManaCostComponent>::empty() =~= out@);
    }
    ManaCost { components: out }
}

// =============================================================================
// Convoke
// =============================================================================

/// How one creature tapped for convoke pays (CR 702.51a): one generic
/// mana, or one mana of one of its colors.
#[derive(Clone, Copy, Debug, PartialEq, Eq, Structural)]
pub enum ConvokePayment {
    Generic,
    Color(ManaColor),
}

/// Number of generic payments in `a`.
pub open spec fn convoke_generic(a: Seq<ConvokePayment>) -> nat
    decreases a.len(),
{
    if a.len() == 0 {
        0
    } else {
        convoke_generic(a.drop_last()) + if a.last() == ConvokePayment::Generic {
            1nat
        } else {
            0nat
        }
    }
}

/// Number of payments of color `m` in `a`.
pub open spec fn convoke_color(a: Seq<ConvokePayment>, m: ManaColor) -> nat
    decreases a.len(),
{
    if a.len() == 0 {
        0
    } else {
        convoke_color(a.drop_last(), m) + if a.last() == ConvokePayment::Color(m) {
            1nat
        } else {
            0nat
        }
    }
}

/// The `i`-th color in W, U, B, R, G order.
pub open spec fn color_at(i: nat) -> Color {
    if i == 0 {
        Color::White
    } else if i == 1 {
        Color::Blue
    } else if i == 2 {
        Color::Black
    } else if i == 3 {
        Color::Red
    } else {
        Color::Green
    }
}

/// `cs` without its first `k` `{c}` pips.
pub open spec fn spec_remove_colored(cs: Seq<ManaCostComponent>, c: Color, k: nat) -> Seq<ManaCostComponent>
    decreases cs.len(),
{
    if cs.len() == 0 || k == 0 {
        cs
    } else if cs[0] == ManaCostComponent::Colored(c) {
        spec_remove_colored(cs.drop_first(), c, (k - 1) as nat)
    } else {
        seq![cs[0]] + spec_remove_colored(cs.drop_first(), c, k)
    }
}

/// How many of `k` `{c}` pips `cs` lacks.
pub open spec fn spec_colored_short(cs: Seq<ManaCostComponent>, c: Color, k: nat) -> nat
    decreases cs.len(),
{
    if cs.len() == 0 || k == 0 {
        k
    } else if cs[0] == ManaCostComponent::Colored(c) {
        spec_colored_short(cs.drop_first(), c, (k - 1) as nat)
    } else {
        spec_colored_short(cs.drop_first(), c, k)
    }
}

/// `cs` with the colored payments of `a` taken off, color by color from
/// `color_at(i)` on; `None` when some color is paid more often than `cs`
/// asks for it.
pub open spec fn spec_strip_colors(cs: Seq<ManaCostComponent>, a: Seq<ConvokePayment>, i: nat) -> Option<
    Seq<ManaCostComponent>,
>
    decreases 5 - i,
{
    if i >= 5 {
        Some(cs)
    } else {
        let c = color_at(i);
        let k = convoke_color(a, spec_color_to_mana(c));
        if spec_colored_short(cs, c, k) > 0 {
            None
        } else {
            spec_strip_colors(spec_remove_colored(cs, c, k), a, i + 1)
        }
    }
}

/// The cost left of `cs` once the convoke payments `a` are made: generic
/// payments come off the `{N}` pips, each colored payment off a pip of its
/// color. `None` when `a` pays more generic mana than `cs` has, pays
/// colorless mana, or pays a color more often than `cs` asks for it.
pub open spec fn spec_convoke_reduce(cs: Seq<ManaCostComponent>, a: Seq<ConvokePayment>) -> Option<
    Seq<ManaCostComponent>,
> {
    if convoke_generic(a) > crate::mana::generic_total(cs) || convoke_color(a, ManaColor::Colorless) > 0 {
        None
    } else {
        spec_strip_colors(spec_reduce_generic(cs, convoke_generic(a)), a, 0)
    }
}

/// Does `cs` hold at least `g` generic mana?
fn generic_covers(cs: &Vec<ManaCostComponent>, g: u32) -> (b: bool)
    ensures
        b == (g <= crate::mana::generic_total(cs@)),
{
    let mut sum: u64 = 0;
    let mut i: usize = 0;
    while i < cs.len()
        invariant
            i <= cs@.len(),
            sum < g ==> sum == crate::mana::generic_total(cs@.take(i as int)),
            sum >= g ==> crate::mana::generic_total(cs@.take(i as int)) >= g,
            sum <= g + u32::MAX,
        decreases cs@.len() - i,
    {
        proof {
            assert(cs@.take(i + 1).drop_last() =~= cs@.take(i as int));
        }
        if sum < g as u64 {
            if let ManaCostComponent::Generic(n) = cs[i] {
                sum = sum + n as u64;
            }
        }
        i = i + 1;
    }
    proof {
        assert(cs@.take(i as int) =~= cs@);
    }
    sum >= g as u64
}

/// `cs` without its first `k` `{c}` pips, and how many of them it lacked.
fn remove_colored(cs: &Vec<ManaCostComponent>, c: Color, k: u32) -> (r: (Vec<ManaCostComponent>, u32))
    ensures
        r.0@ == spec_remove_colored(cs@, c, k as nat),
        r.1 == spec_colored_short(cs@, c, k as nat),
{
    let ghost all = cs@;
    let mut out: Vec<ManaCostComponent> = Vec::new();
    let mut left: u32 = k;
    let mut i: usize = 0;
    proof {
        assert(all.skip(0) =~= all);
    }
    while i < cs.len()
        invariant
            all == cs@,
            i <= all.len(),
            out@ + spec_remove_colored(all.skip(i as int), c, left as nat) == spec_remove_colored(all, c, k as nat),
            spec_colored_short(all.skip(i as int), c, left as nat) == spec_colored_short(all, c, k as nat),
        decreases all.len() - i,
    {
        let ghost before = out@;
        let ghost rest = all.skip(i as int);
        proof {
            assert(rest.drop_first() =~= all.skip(i + 1));
            assert(rest[0] == all[i as int]);
        }
        let x = cs[i];
        if left > 0 && x == ManaCostComponent::Colored(c) {
            left = left - 1;
        } else {
            out.push(x);
            proof {
                if left == 0 {
                    assert(rest =~= seq![x] + all.skip(i + 1));
                    assert(spec_remove_colored(all.skip(i + 1), c, 0) == all.skip(i + 1));
                    assert(spec_colored_short(all.skip(i + 1), c, 0) == 0);
                }
                assert(out@ + spec_remove_colored(all.skip(i + 1), c, left as nat) =~= before
                    + spec_remove_colored(rest, c, left as nat));
            }
        }
        i = i + 1;
    }
    proof {
        assert(all.skip(i as int) =~= Seq::<ManaCostComponent>::empty());
        assert(out@ + Seq::<ManaCostComponent>::empty() =~= out@);
    }
    (out, left)
}

/// The cost left of `cost` once the convoke payments `assignment` are
/// made (CR 702.51a), as [`spec_convoke_reduce`] gives it; `None` when the
/// assignment over-pays. What remains still has to be paid with mana.
pub fn reduce_cost_by_convoke(cost: &ManaCost, assignment: &Vec<ConvokePayment>) -> (r: Option<ManaCost>)
    requires
        assignment@.len() <= u32::MAX,
    ensures
        match r {
            Some(out) => spec_convoke_reduce(cost.components@, assignment@) == Some(out.components@),
            None => spec_convoke_reduce(cost.components@, assignment@) is None,
        },
{
    let ghost a = assignment@;
    let mut generic: u32 = 0;
    let mut counts: [u32; 6] = [0, 0, 0, 0, 0, 0];
    let mut i: usize = 0;
    while i < assignment.len()
        invariant
            a == assignment@,
            a.len() <= u32::MAX,
            i <= a.len(),
            generic == convoke_generic(a.take(i as int)),
            generic <= i,
            forall|m: int| 0 <= m < 6 ==> #[trigger] counts@[m] <= i,
            forall|m: ManaColor| #[trigger] counts@[spec_mana_color_index(m) as int] == convoke_color(a.take(i as int), m),
        decreases a.len() - i,
    {
        proof {
            assert(a.take(i + 1).drop_last() =~= a.take(i as int));
        }
        match assignment[i] {
            ConvokePayment::Generic => {
                generic = generic + 1;
            },
            ConvokePayment::Color(m) => {
                let j = crate::enumeration::mana_color_index(m);
                counts.set(j, counts[j] + 1);
            },
        }
        i = i + 1;
    }
    proof {
        assert(a.take(i as int) =~= a);
    }
    if !generic_covers(&cost.components, generic) {
        return None;
    }
    if counts[5] > 0 {
        proof {
            assert(counts@[spec_mana_color_index(ManaColor::Colorless) as int] > 0);
        }
        return None;
    }
    let reduced = reduce_generic_cost(cost, generic);
    let mut cs = reduced.components;
    let colors: [Color; 5] = [Color::White, Color::Blue, Color::Black, Color::Red, Color::Green];
    let mut ci: usize = 0;
    while ci < 5
        invariant
            ci <= 5,
            a == assignment@,
            colors@ == seq![Color::White, Color::Blue, Color::Black, Color::Red, Color::Green],
            forall|m: ManaColor| #[trigger] counts@[spec_mana_color_index(m) as int] == convoke_color(a, m),
            spec_strip_colors(cs@, a, ci as nat) == spec_convoke_reduce(cost.components@, a),
        decreases 5 - ci,
    {
        let c = colors[ci];
        proof {
            assert(c == color_at(ci as nat));
        }
        let k = counts[mana_color_index(c.to_mana())];
        proof {
            assert(counts@[spec_mana_color_index(spec_color_to_mana(c)) as int] == convoke_color(
                a,
                spec_color_to_mana(c),
            ));
        }
        let (next, short) = remove_colored(&cs, c, k);
        if short > 0 {
            return None;
        }
        cs = next;
        ci = ci + 1;
    }
    Some(ManaCost { components: cs })
}

/// Sum of the `{N}` pips of `cost`: how much of it delve or improvise
/// can pay.
pub fn generic_total(cost: &ManaCost) -> (n: u32)
    requires
        crate::mana::generic_total(cost.components@) <= u32::MAX,
    ensures
        n == crate::mana::generic_total(cost.components@),
{
    let ghost cs = cost.components@;
    let mut n: u32 = 0;
    let mut i: usize = 0;
    while i < cost.components.len()
        invariant
            i <= cs.len(),
            cs == cost.components@,
            crate::mana::generic_total(cs) <= u32::MAX,
            n == crate::mana::generic_total(cs.take(i as int)),
        decreases cs.len() - i,
    {
        proof {
            assert(cs.take(i + 1).drop_last() =~= cs.take(i as int));
            lemma_pips_prefix(cs, None, i + 1);
        }
        match cost.components[i] {
            ManaCostComponent::Generic(g) => {
                n = n + g;
            },
            _ => {},
        }
        i = i + 1;
    }
    proof {
        assert(cs.take(i as int) =~= cs);
    }
    n
}

/// Pips of one component counted for convoke: a `{N}` pip is `N` pips,
/// `{X}` and every other symbol one.
pub open spec fn spec_pip_weight(c: ManaCostComponent) -> nat {
    match c {
        ManaCostComponent::Generic(n) => n as nat,
        _ => 1,
    }
}

/// Sum of `spec_pip_weight` over `cs`.
pub open spec fn spec_total_pips(cs: Seq<ManaCostComponent>) -> nat
    decreases cs.len(),
{
    if cs.len() == 0 {
        0
    } else {
        spec_total_pips(cs.drop_last()) + spec_pip_weight(cs.last())
    }
}

proof fn lemma_total_pips_prefix(cs: Seq<ManaCostComponent>, k: int)
    requires
        0 <= k <= cs.len(),
    ensures
        spec_total_pips(cs.take(k)) <= spec_total_pips(cs),
    decreases cs.len() - k,
{
    if k < cs.len() {
        lemma_total_pips_prefix(cs, k + 1);
        assert(cs.take(k + 1).drop_last() =~= cs.take(k));
    } else {
        assert(cs.take(k) =~= cs);
    }
}

/// Total pip count of `cost`: the most creatures convoke can tap for it.
pub fn total_pips(cost: &ManaCost) -> (n: u32)
    requires
        spec_total_pips(cost.components@) <= u32::MAX,
    ensures
        n == spec_total_pips(cost.components@),
{
    let ghost cs = cost.components@;
    let mut n: u32 = 0;
    let mut i: usize = 0;
    while i < cost.components.len()
        invariant
            i <= cs.len(),
            cs == cost.components@,
            spec_total_pips(cs) <= u32::MAX,
            n == spec_total_pips(cs.take(i as int)),
        decreases cs.len() - i,
    {
        proof {
            assert(cs.take(i + 1).drop_last() =~= cs.take(i as int));
            lemma_total_pips_prefix(cs, i + 1);
        }
        let w: u32 = match cost.components[i] {
            ManaCostComponent::Generic(g) => g,
            _ => 1,
        };
        n = n + w;
        i = i + 1;
    }
    proof {
        assert(cs.take(i as int) =~= cs);
    }
    n
}


// =============================================================================
// Pool colors against a cost
// =============================================================================

/// The mana color at position `i` of the order white, blue, black, red,
/// green, colorless.
pub open spec fn spec_mana_color_at(i: int) -> ManaColor {
    if i == 0 {
        ManaColor::White
    } else if i == 1 {
        ManaColor::Blue
    } else if i == 2 {
        ManaColor::Black
    } else if i == 3 {
        ManaColor::Red
    } else if i == 4 {
        ManaColor::Green
    } else {
        ManaColor::Colorless
    }
}

/// Position of `c` in the order white, blue, black, red, green, colorless.
pub fn mana_color_index(c: ManaColor) -> (i: usize)
    ensures
        i == spec_mana_color_index(c),
        i < 6,
        spec_mana_color_at(i as int) == c,
{
    match c {
        ManaColor::White => 0,
        ManaColor::Blue => 1,
        ManaColor::Black => 2,
        ManaColor::Red => 3,
        ManaColor::Green => 4,
        ManaColor::Colorless => 5,
    }
}

fn mana_color_at(i: usize) -> (c: ManaColor)
    requires
        i < 6,
    ensures
        c == spec_mana_color_at(i as int),
        spec_mana_color_index(c) == i,
{
    if i == 0 {
        ManaColor::White
    } else if i == 1 {
        ManaColor::Blue
    } else if i == 2 {
        ManaColor::Black
    } else if i == 3 {
        ManaColor::Red
    } else if i == 4 {
        ManaColor::Green
    } else {
        ManaColor::Colorless
    }
}

/// Units of each color in `pool`, indexed by `mana_color_index`.
pub fn pool_color_counts(pool: &ManaPool) -> (c: [u32; 6])
    requires
        pool.pool@.len() <= u32::MAX,
    ensures
        forall|m: ManaColor|
            c@[spec_mana_color_index(m) as int] == #[trigger] spec_count_color(pool.pool@, m, false),
{
    let ghost p = pool.pool@;
    let mut c: [u32; 6] = [0, 0, 0, 0, 0, 0];
    let mut i: usize = 0;
    while i < pool.pool.len()
        invariant
            i <= p.len(),
            p == pool.pool@,
            p.len() <= u32::MAX,
            forall|m: ManaColor|
                c@[spec_mana_color_index(m) as int] == #[trigger] spec_count_color(p.take(i as int), m, false),
            forall|m: ManaColor| c@[spec_mana_color_index(m) as int] <= i,
        decreases p.len() - i,
    {
        proof {
            assert(p.take(i + 1).drop_last() =~= p.take(i as int));
        }
        let u = pool.pool[i];
        let k = mana_color_index(u.color);
        let ghost before = c@;
        c[k] = c[k] + 1;
        proof {
            assert forall|m: ManaColor|
                c@[spec_mana_color_index(m) as int] == #[trigger] spec_count_color(p.take(i + 1), m, false) by {
                assert(p.take(i + 1).last() == u);
                assert(before[spec_mana_color_index(m) as int] == spec_count_color(p.take(i as int), m, false));
                assert(c@ == before.update(k as int, (before[k as int] + 1) as u32));
                if m == u.color {
                } else {
                    assert(spec_mana_color_index(m) != k);
                }
            }
        }
        i = i + 1;
    }
    proof {
        assert(p.take(i as int) =~= p);
    }
    c
}

/// Colored pips of `cs` that only mana of color `m` pays.
pub open spec fn spec_colored_pips(cs: Seq<ManaCostComponent>, m: ManaColor) -> nat
    decreases cs.len(),
{
    if cs.len() == 0 {
        0
    } else {
        spec_colored_pips(cs.drop_last(), m) + match cs.last() {
            ManaCostComponent::Colored(a) => if spec_color_to_mana(a) == m {
                1nat
            } else {
                0nat
            },
            _ => 0nat,
        }
    }
}

/// `cs` has more colored pips of `m` than `pool` has units of `m`.
pub open spec fn spec_unmet(cs: Seq<ManaCostComponent>, pool: Seq<crate::mana::ManaUnit>, m: ManaColor) -> bool {
    spec_colored_pips(cs, m) > spec_count_color(pool, m, false)
}

/// The colors among the first `k` of white, blue, black, red, green,
/// colorless that `cs` needs more of than `pool` holds, in that order.
pub open spec fn spec_unmet_upto(cs: Seq<ManaCostComponent>, pool: Seq<crate::mana::ManaUnit>, k: nat) -> Seq<ManaColor>
    decreases k,
{
    if k == 0 {
        Seq::empty()
    } else {
        let m = spec_mana_color_at(k - 1);
        spec_unmet_upto(cs, pool, (k - 1) as nat) + if spec_unmet(cs, pool, m) {
            seq![m]
        } else {
            Seq::empty()
        }
    }
}

/// Colors whose colored pips in `cost` the pool cannot cover yet, in the
/// order white, blue, black, red, green, colorless: a hint for which mana
/// source to tap next. Generic and colorless needs are not counted.
pub fn unmet_cost_colors(cost: Option<&ManaCost>, pool: &ManaPool) -> (out: Vec<ManaColor>)
    requires
        pool.pool@.len() <= u32::MAX,
    ensures
        match cost {
            None => out@.len() == 0,
            Some(c) => out@ == spec_unmet_upto(c.components@, pool.pool@, 6),
        },
{
    let cost = match cost {
        None => {
            return Vec::new();
        },
        Some(c) => c,
    };
    let ghost cs = cost.components@;
    let mut need: [usize; 6] = [0, 0, 0, 0, 0, 0];
    let mut i: usize = 0;
    while i < cost.components.len()
        invariant
            i <= cs.len(),
            cs == cost.components@,
            forall|m: ManaColor|
                need@[spec_mana_color_index(m) as int] == #[trigger] spec_colored_pips(cs.take(i as int), m),
            forall|m: ManaColor| need@[spec_mana_color_index(m) as int] <= i,
        decreases cs.len() - i,
    {
        proof {
            assert(cs.take(i + 1).drop_last() =~= cs.take(i as int));
            assert(cs.take(i + 1).last() == cs[i as int]);
        }
        match cost.components[i] {
            ManaCostComponent::Colored(a) => {
                let k = mana_color_index(a.to_mana());
                let ghost before = need@;
                need[k] = need[k] + 1;
                proof {
                    assert forall|m: ManaColor|
                        need@[spec_mana_color_index(m) as int] == #[trigger] spec_colored_pips(cs.take(i + 1), m) by {
                        assert(before[spec_mana_color_index(m) as int] == spec_colored_pips(cs.take(i as int), m));
                        assert(need@ == before.update(k as int, (before[k as int] + 1) as usize));
                        if m == spec_color_to_mana(a) {
                        } else {
                            assert(spec_mana_color_index(m) != k);
                        }
                    }
                }
            },
            _ => {
                proof {
                    assert forall|m: ManaColor|
                        need@[spec_mana_color_index(m) as int] == #[trigger] spec_colored_pips(cs.take(i + 1), m) by {
                        assert(need@[spec_mana_color_index(m) as int] == spec_colored_pips(cs.take(i as int), m));
                    }
                }
            },
        }
        i = i + 1;
    }
    proof {
        assert(cs.take(i as int) =~= cs);
    }
    let have = pool_color_counts(pool);
    let mut out: Vec<ManaColor> = Vec::new();
    let mut k: usize = 0;
    while k < 6
        invariant
            k <= 6,
            cs == cost.components@,
            forall|m: ManaColor| need@[spec_mana_color_index(m) as int] == #[trigger] spec_colored_pips(cs, m),
            forall|m: ManaColor|
                have@[spec_mana_color_index(m) as int] == #[trigger] spec_count_color(pool.pool@, m, false),
            out@ == spec_unmet_upto(cs, pool.pool@, k as nat),
        decreases 6 - k,
    {
        let m = mana_color_at(k);
        proof {
            assert(need@[k as int] == spec_colored_pips(cs, m));
            assert(have@[k as int] == spec_count_color(pool.pool@, m, false));
        }
        if need[k] > have[k] as usize {
            out.push(m);
        }
        proof {
            assert(out@ =~= spec_unmet_upto(cs, pool.pool@, (k + 1) as nat));
        }
        k = k + 1;
    }
    out
}


// =============================================================================
// Mode subsets of a modal spell
// =============================================================================

/// `2` to the power `n`.
pub open spec fn spec_two_pow(n: nat) -> nat
    decreases n,
{
    if n == 0 {
        1
    } else {
        2 * spec_two_pow((n - 1) as nat)
    }
}

/// `x` shifted right by `i` bits.
pub open spec fn spec_shr(x: nat, i: nat) -> nat
    decreases i,
{
    if i == 0 {
        x
    } else {
        spec_shr(x, (i - 1) as nat) / 2
    }
}

/// The positions below `n` of the set bits of `mask`, ascending.
pub open spec fn spec_mask_bits(mask: nat, n: nat) -> Seq<usize>
    decreases n,
{
    if n == 0 {
        Seq::empty()
    } else {
        spec_mask_bits(mask, (n - 1) as nat) + if spec_shr(mask, (n - 1) as nat) % 2 == 1 {
            seq![(n - 1) as usize]
        } else {
            Seq::empty()
        }
    }
}

/// For each mask below `m`, in increasing order, the mode subset it
/// selects out of `n` modes, kept when its size lies in `[lo, hi]`.
pub open spec fn spec_mode_subsets(n: nat, lo: nat, hi: nat, m: nat) -> Seq<Seq<usize>>
    decreases m,
{
    if m == 0 {
        Seq::empty()
    } else {
        let b = spec_mask_bits((m - 1) as nat, n);
        spec_mode_subsets(n, lo, hi, (m - 1) as nat) + if lo <= b.len() <= hi {
            seq![b]
        } else {
            Seq::empty()
        }
    }
}

proof fn lemma_two_pow_31()
    ensures
        spec_two_pow(31) == 2147483648,
{
    assert(spec_two_pow(0) == 1);
    assert(spec_two_pow(1) == 2);
    assert(spec_two_pow(2) == 4);
    assert(spec_two_pow(3) == 8);
    assert(spec_two_pow(4) == 16);
    assert(spec_two_pow(5) == 32);
    assert(spec_two_pow(6) == 64);
    assert(spec_two_pow(7) == 128);
    assert(spec_two_pow(8) == 256);
    assert(spec_two_pow(9) == 512);
    assert(spec_two_pow(10) == 1024);
    assert(spec_two_pow(11) == 2048);
    assert(spec_two_pow(12) == 4096);
    assert(spec_two_pow(13) == 8192);
    assert(spec_two_pow(14) == 16384);
    assert(spec_two_pow(15) == 32768);
    assert(spec_two_pow(16) == 65536);
    assert(spec_two_pow(17) == 131072);
    assert(spec_two_pow(18) == 262144);
    assert(spec_two_pow(19) == 524288);
    assert(spec_two_pow(20) == 1048576);
    assert(spec_two_pow(21) == 2097152);
    assert(spec_two_pow(22) == 4194304);
    assert(spec_two_pow(23) == 8388608);
    assert(spec_two_pow(24) == 16777216);
    assert(spec_two_pow(25) == 33554432);
    assert(spec_two_pow(26) == 67108864);
    assert(spec_two_pow(27) == 134217728);
    assert(spec_two_pow(28) == 268435456);
    assert(spec_two_pow(29) == 536870912);
    assert(spec_two_pow(30) == 1073741824);
    assert(spec_two_pow(31) == 2147483648);
}

proof fn lemma_two_pow_mono(a: nat, b: nat)
    requires
        a <= b,
    ensures
        spec_two_pow(a) <= spec_two_pow(b),
    decreases b,
{
    if a < b {
        lemma_two_pow_mono(a, (b - 1) as nat);
    }
}

/// Every mode subset of `modal` whose size lies in
/// `[min_modes, max_modes]`, by a walk over the bitmasks of its clauses
/// in increasing order; each subset lists clause indices ascending.
pub fn enumerate_mode_combinations(modal: &ModalSpec) -> (out: Vec<ModeChoice>)
    requires
        modal.clauses@.len() < 32,
    ensures
        out@.len() == spec_mode_subsets(
            modal.clauses@.len() as nat,
            modal.min_modes as nat,
            modal.max_modes as nat,
            spec_two_pow(modal.clauses@.len() as nat),
        ).len(),
        forall|j: int|
            0 <= j < out@.len() ==> (#[trigger] out@[j]).mode_indices@ == spec_mode_subsets(
                modal.clauses@.len() as nat,
                modal.min_modes as nat,
                modal.max_modes as nat,
                spec_two_pow(modal.clauses@.len() as nat),
            )[j],
{
    let n: usize = modal.clauses.len();
    let lo = modal.min_modes;
    let hi = modal.max_modes;
    let mut limit: u64 = 1;
    let mut e: usize = 0;
    while e < n
        invariant
            e <= n,
            n < 32,
            limit == spec_two_pow(e as nat),
        decreases n - e,
    {
        proof {
            lemma_two_pow_mono((e + 1) as nat, 31);
            lemma_two_pow_31();
        }
        limit = limit * 2;
        e = e + 1;
    }
    let mut out: Vec<ModeChoice> = Vec::new();
    let mut mask: u64 = 0;
    while mask < limit
        invariant
            mask <= limit,
            limit == spec_two_pow(n as nat),
            out@.len() == spec_mode_subsets(n as nat, lo as nat, hi as nat, mask as nat).len(),
            forall|j: int|
                0 <= j < out@.len() ==> (#[trigger] out@[j]).mode_indices@ == spec_mode_subsets(
                    n as nat,
                    lo as nat,
                    hi as nat,
                    mask as nat,
                )[j],
        decreases limit - mask,
    {
        let mut indices: Vec<usize> = Vec::new();
        let mut rest: u64 = mask;
        let mut i: usize = 0;
        while i < n
            invariant
                i <= n,
                rest == spec_shr(mask as nat, i as nat),
                indices@ == spec_mask_bits(mask as nat, i as nat),
            decreases n - i,
        {
            if rest % 2 == 1 {
                indices.push(i);
            }
            proof {
                assert(indices@ =~= spec_mask_bits(mask as nat, (i + 1) as nat));
            }
            rest = rest / 2;
            i = i + 1;
        }
        let ghost prev = out@;
        let ghost subsets = spec_mode_subsets(n as nat, lo as nat, hi as nat, mask as nat);
        let size = indices.len();
        if lo <= size && size <= hi {
            out.push(ModeChoice { mode_indices: indices });
        }
        proof {
            let next = spec_mode_subsets(n as nat, lo as nat, hi as nat, (mask + 1) as nat);
            assert forall|j: int| 0 <= j < out@.len() implies (#[trigger] out@[j]).mode_indices@ == next[j] by {
                if j < prev.len() {
                    assert(out@[j] == prev[j]);
                    assert(next[j] == subsets[j]);
                }
            }
        }
        mask = mask + 1;
    }
    out
}


// =============================================================================
// Combinations
// =============================================================================

/// The `k`-element combinations of `s`, each keeping the order of `s`:
/// first those that take `s[0]`, then those that skip it.
pub open spec fn spec_combinations(s: Seq<ObjectId>, k: nat) -> Seq<Seq<ObjectId>>
    decreases s.len(),
{
    if k == 0 {
        seq![Seq::empty()]
    } else if s.len() < k {
        Seq::empty()
    } else {
        spec_combinations(s.drop_first(), (k - 1) as nat).map_values(|t: Seq<ObjectId>| seq![s[0]] + t)
            + spec_combinations(s.drop_first(), k)
    }
}

/// All `k`-element combinations of `items`, order-independent, each in
/// the order of `items`; `k == 0` gives one empty combination. Used for
/// multi-card costs (discard two, sacrifice two).
pub fn combinations(items: &[ObjectId], k: usize) -> (out: Vec<Vec<ObjectId>>)
    ensures
        out.deep_view() == spec_combinations(items@, k as nat),
    decreases items@.len(),
{
    if k == 0 {
        let out: Vec<Vec<ObjectId>> = vec![Vec::new()];
        proof {
            assert(out@.len() == 1);
            assert(out@[0].deep_view() =~= Seq::<ObjectId>::empty());
            assert(out.deep_view() =~= spec_combinations(items@, k as nat));
        }
        return out;
    }
    if k > items.len() {
        let out: Vec<Vec<ObjectId>> = Vec::new();
        proof {
            assert(out.deep_view() =~= spec_combinations(items@, k as nat));
        }
        return out;
    }
    let ghost s = items@;
    let n = items.len();
    let mut out: Vec<Vec<ObjectId>> = Vec::new();
    let mut i: usize = 0;
    proof {
        assert(s.skip(0) =~= s);
        assert(out.deep_view() + spec_combinations(s, k as nat) =~= spec_combinations(s, k as nat));
    }
    while i <= n - k
        invariant
            1 <= k <= n,
            n == s.len(),
            s == items@,
            i <= n - k + 1,
            out.deep_view() + spec_combinations(s.skip(i as int), k as nat) == spec_combinations(s, k as nat),
        decreases n - k + 1 - i,
    {
        let rest = vstd::slice::slice_subrange(items, i + 1, n);
        proof {
            assert(rest@ =~= s.skip(i as int).drop_first());
            assert(s.skip(i as int)[0] == s[i as int]);
        }
        let tails = combinations(rest, k - 1);
        let ghost before = out.deep_view();
        let ghost heads = spec_combinations(rest@, (k - 1) as nat).map_values(
            |t: Seq<ObjectId>| seq![s[i as int]] + t,
        );
        let mut j: usize = 0;
        while j < tails.len()
            invariant
                j <= tails@.len(),
                tails.deep_view() == spec_combinations(rest@, (k - 1) as nat),
                heads == spec_combinations(rest@, (k - 1) as nat).map_values(|t: Seq<ObjectId>| seq![s[i as int]] + t),
                i < n,
                n == s.len(),
                s == items@,
                out.deep_view() == before + heads.take(j as int),
            decreases tails@.len() - j,
        {
            let mut combo: Vec<ObjectId> = Vec::new();
            combo.push(items[i]);
            let tail = &tails[j];
            let mut t: usize = 0;
            while t < tail.len()
                invariant
                    t <= tail@.len(),
                    combo@ == seq![s[i as int]] + tail@.take(t as int),
                decreases tail@.len() - t,
            {
                combo.push(tail[t]);
                proof {
                    assert(combo@ =~= seq![s[i as int]] + tail@.take(t + 1));
                }
                t = t + 1;
            }
            proof {
                assert(tail@.take(t as int) =~= tail@);
                assert(tails.deep_view()[j as int] == tail.deep_view());
                assert(tail.deep_view() =~= tail@);
                assert(heads[j as int] == seq![s[i as int]] + tail@);
                assert(combo.deep_view() =~= combo@);
            }
            let ghost od = out.deep_view();
            let ghost ov = out@;
            let ghost cv = combo@;
            out.push(combo);
            proof {
                assert(out@ == ov.push(out@[ov.len() as int]));
                assert(out.deep_view() =~= od.push(cv));
                assert(heads.take(j + 1) =~= heads.take(j as int).push(heads[j as int]));
                assert(out.deep_view() =~= before + heads.take(j + 1));
            }
            j = j + 1;
        }
        proof {
            assert(heads.take(j as int) =~= heads);
            assert(spec_combinations(s.skip(i as int), k as nat) == heads + spec_combinations(s.skip(i + 1), k as nat)) by {
                assert(s.skip(i as int).drop_first() =~= s.skip(i + 1));
            }
            assert(out.deep_view() + spec_combinations(s.skip(i + 1), k as nat) =~= before + spec_combinations(
                s.skip(i as int),
                k as nat,
            ));
        }
        i = i + 1;
    }
    proof {
        assert(spec_combinations(s.skip(i as int), k as nat) =~= Seq::<Seq<ObjectId>>::empty());
        assert(out.deep_view() + Seq::<Seq<ObjectId>>::empty() =~= out.deep_view());
    }
    out
}


// =============================================================================
// Permutations, capped
// =============================================================================

/// `s` truncated to `MAX_COMBAT_ENUM` entries.
pub open spec fn spec_capped(s: Seq<Seq<ObjectId>>) -> Seq<Seq<ObjectId>> {
    if s.len() <= MAX_COMBAT_ENUM {
        s
    } else {
        s.take(MAX_COMBAT_ENUM as int)
    }
}

/// Each sequence of `l` with `p` put in front of it.
pub open spec fn spec_extend_all(p: Seq<ObjectId>, l: Seq<Seq<ObjectId>>) -> Seq<Seq<ObjectId>> {
    l.map_values(|t: Seq<ObjectId>| p + t)
}

/// The orderings of `s`: those starting with `s[0]` first (the rest
/// ordered the same way recursively), then those starting with `s[1]`,
/// and so on. The first is `s` itself.
pub open spec fn spec_permutations(s: Seq<ObjectId>) -> Seq<Seq<ObjectId>>
    decreases s.len(), 1int, 0int,
{
    if s.len() == 0 {
        seq![Seq::empty()]
    } else {
        spec_permutations_from(s, 0)
    }
}

/// The orderings of `s` that start with `s[i]`, then those that start
/// with `s[i + 1]`, up to the last item.
pub open spec fn spec_permutations_from(s: Seq<ObjectId>, i: int) -> Seq<Seq<ObjectId>>
    decreases s.len(), 0int, s.len() - i,
{
    if i < 0 || i >= s.len() {
        Seq::empty()
    } else {
        spec_extend_all(seq![s[i]], spec_permutations(s.remove(i))) + spec_permutations_from(s, i + 1)
    }
}

proof fn lemma_capped_assoc(a: Seq<Seq<ObjectId>>, b: Seq<Seq<ObjectId>>, c: Seq<Seq<ObjectId>>)
    ensures
        spec_capped(spec_capped(a + b) + c) == spec_capped(a + (b + c)),
{
    assert(a + (b + c) =~= (a + b) + c);
    if (a + b).len() > MAX_COMBAT_ENUM {
        assert((a + b).take(MAX_COMBAT_ENUM as int) + c == spec_capped(a + b) + c);
        assert(spec_capped(spec_capped(a + b) + c) =~= ((a + b) + c).take(MAX_COMBAT_ENUM as int));
    }
}

proof fn lemma_extend_concat(p: Seq<ObjectId>, a: Seq<Seq<ObjectId>>, b: Seq<Seq<ObjectId>>)
    ensures
        spec_extend_all(p, a + b) == spec_extend_all(p, a) + spec_extend_all(p, b),
{
    assert(spec_extend_all(p, a + b) =~= spec_extend_all(p, a) + spec_extend_all(p, b));
}

proof fn lemma_extend_twice(p: Seq<ObjectId>, x: ObjectId, l: Seq<Seq<ObjectId>>)
    ensures
        spec_extend_all(p, spec_extend_all(seq![x], l)) == spec_extend_all(p.push(x), l),
{
    assert forall|j: int| 0 <= j < l.len() implies spec_extend_all(p, spec_extend_all(seq![x], l))[j]
        == spec_extend_all(p.push(x), l)[j] by {
        assert(p + (seq![x] + l[j]) =~= p.push(x) + l[j]);
    }
    assert(spec_extend_all(p, spec_extend_all(seq![x], l)) =~= spec_extend_all(p.push(x), l));
}

proof fn lemma_extend_empty(l: Seq<Seq<ObjectId>>)
    ensures
        spec_extend_all(Seq::empty(), l) == l,
{
    assert forall|j: int| 0 <= j < l.len() implies spec_extend_all(Seq::empty(), l)[j] == l[j] by {
        assert(Seq::<ObjectId>::empty() + l[j] =~= l[j]);
    }
    assert(spec_extend_all(Seq::empty(), l) =~= l);
}

/// The orderings of `s` begin with `s` itself.
pub proof fn lemma_permutations_identity_first(s: Seq<ObjectId>)
    ensures
        spec_permutations(s).len() >= 1,
        spec_permutations(s)[0] == s,
    decreases s.len(),
{
    if s.len() > 0 {
        let r = s.remove(0);
        lemma_permutations_identity_first(r);
        assert(r =~= s.drop_first());
        let head = spec_extend_all(seq![s[0]], spec_permutations(r));
        assert(spec_permutations(s) == head + spec_permutations_from(s, 1));
        assert(head[0] == seq![s[0]] + r);
        assert(seq![s[0]] + r =~= s);
    }
}

fn permute_capped(rest: &[ObjectId], prefix: Vec<ObjectId>, out: &mut Vec<Vec<ObjectId>>)
    requires
        old(out)@.len() <= MAX_COMBAT_ENUM,
    ensures
        final(out)@.len() <= MAX_COMBAT_ENUM,
        final(out).deep_view() == spec_capped(
            old(out).deep_view() + spec_extend_all(prefix@, spec_permutations(rest@)),
        ),
    decreases rest@.len(),
{
    let ghost start = out.deep_view();
    let ghost whole = spec_extend_all(prefix@, spec_permutations(rest@));
    if out.len() >= MAX_COMBAT_ENUM {
        proof {
            assert(spec_capped(start + whole) =~= start);
        }
        return;
    }
    if rest.len() == 0 {
        let ghost pv = prefix@;
        let ghost ov = out@;
        proof {
            assert(prefix.deep_view() =~= pv);
        }
        out.push(prefix);
        proof {
            assert(out@ == ov.push(out@[ov.len() as int]));
            assert(out.deep_view() =~= start.push(pv));
            assert(whole =~= seq![pv]) by {
                assert(pv + Seq::<ObjectId>::empty() =~= pv);
            }
            assert(out.deep_view() =~= start + whole);
        }
        return;
    }
    let mut i: usize = 0;
    proof {
        assert(spec_permutations(rest@) == spec_permutations_from(rest@, 0));
    }
    while i < rest.len()
        invariant
            i <= rest@.len(),
            rest@.len() > 0,
            out@.len() <= MAX_COMBAT_ENUM,
            start == old(out).deep_view(),
            whole == spec_extend_all(prefix@, spec_permutations(rest@)),
            spec_permutations(rest@) == spec_permutations_from(rest@, 0),
            spec_capped(out.deep_view() + spec_extend_all(prefix@, spec_permutations_from(rest@, i as int)))
                == spec_capped(start + whole),
        decreases rest@.len() - i,
    {
        let ghost now = out.deep_view();
        let ghost tail = spec_extend_all(prefix@, spec_permutations_from(rest@, i as int));
        if out.len() >= MAX_COMBAT_ENUM {
            proof {
                assert(spec_capped(now + tail) =~= now);
            }
            return;
        }
        let mut sub = vstd::slice::slice_to_vec(rest);
        let picked = sub.remove(i);
        let mut next_prefix: Vec<ObjectId> = Vec::new();
        let mut t: usize = 0;
        while t < prefix.len()
            invariant
                t <= prefix@.len(),
                next_prefix@ == prefix@.take(t as int),
            decreases prefix@.len() - t,
        {
            next_prefix.push(prefix[t]);
            proof {
                assert(next_prefix@ =~= prefix@.take(t + 1));
            }
            t = t + 1;
        }
        proof {
            assert(prefix@.take(t as int) =~= prefix@);
        }
        next_prefix.push(picked);
        let ghost np = next_prefix@;
        let ghost sv = sub@;
        permute_capped(sub.as_slice(), next_prefix, out);
        proof {
            let x = rest@[i as int];
            let e = spec_extend_all(np, spec_permutations(sv));
            let g = spec_extend_all(prefix@, spec_permutations_from(rest@, i + 1));
            assert(sv == rest@.remove(i as int));
            assert(spec_permutations_from(rest@, i as int) == spec_extend_all(seq![x], spec_permutations(sv))
                + spec_permutations_from(rest@, i + 1));
            lemma_extend_concat(prefix@, spec_extend_all(seq![x], spec_permutations(sv)), spec_permutations_from(rest@, i + 1));
            lemma_extend_twice(prefix@, x, spec_permutations(sv));
            assert(np == prefix@.push(x));
            assert(tail == e + g);
            lemma_capped_assoc(now, e, g);
        }
        i = i + 1;
    }
    proof {
        assert(spec_permutations_from(rest@, i as int) =~= Seq::<Seq<ObjectId>>::empty());
        assert(spec_extend_all(prefix@, Seq::<Seq<ObjectId>>::empty()) =~= Seq::<Seq<ObjectId>>::empty());
        assert(out.deep_view() + Seq::<Seq<ObjectId>>::empty() =~= out.deep_view());
    }
}

/// The orderings of `items`, in the order of `spec_permutations`, cut
/// off after `MAX_COMBAT_ENUM` of them; the first is `items` itself, so
/// a canonical ordering is always present.
pub fn permutations(items: &[ObjectId]) -> (out: Vec<Vec<ObjectId>>)
    ensures
        out.deep_view() == spec_capped(spec_permutations(items@)),
        out@.len() >= 1,
        out.deep_view()[0] == items@,
{
    let mut out: Vec<Vec<ObjectId>> = Vec::new();
    permute_capped(items, Vec::new(), &mut out);
    proof {
        lemma_extend_empty(spec_permutations(items@));
        assert(Seq::<Seq<ObjectId>>::empty() + spec_permutations(items@) =~= spec_permutations(items@));
        lemma_permutations_identity_first(items@);
        assert(out.deep_view().len() == out@.len());
    }
    out
}


// =============================================================================
// Subsets up to interchangeable items
// =============================================================================

/// The views of a sequence of vectors.
pub open spec fn seq_views<T>(s: Seq<Vec<T>>) -> Seq<Seq<T>> {
    s.map_values(|v: Vec<T>| v@)
}

/// `s` truncated to `cap` entries.
pub open spec fn spec_cap<T>(s: Seq<Seq<T>>, cap: nat) -> Seq<Seq<T>> {
    if s.len() <= cap {
        s
    } else {
        s.take(cap as int)
    }
}

/// Each sequence of `l` with `p` put in front of it.
pub open spec fn spec_prepend_all<T>(p: Seq<T>, l: Seq<Seq<T>>) -> Seq<Seq<T>> {
    l.map_values(|t: Seq<T>| p + t)
}

/// How many items of group `g` a subset may take with `rem` slots left.
pub open spec fn spec_max_take<T>(groups: Seq<Seq<T>>, rem: nat, g: int) -> nat {
    if groups[g].len() <= rem {
        groups[g].len()
    } else {
        rem
    }
}

/// The subsets that take, from each group `g..` in turn, a prefix of it
/// (0 items first, then 1, ...), `rem` items at most in all; items of
/// one group are interchangeable, so only prefixes are taken.
pub open spec fn spec_group_subsets<T>(groups: Seq<Seq<T>>, rem: nat, g: int) -> Seq<Seq<T>>
    decreases groups.len() - g, 1int, 0int,
{
    if g < 0 || g >= groups.len() {
        seq![Seq::empty()]
    } else {
        spec_group_subsets_from(groups, rem, g, 0)
    }
}

/// Those subsets of `spec_group_subsets(groups, rem, g)` that take at
/// least `take` items of group `g`.
pub open spec fn spec_group_subsets_from<T>(groups: Seq<Seq<T>>, rem: nat, g: int, take: int) -> Seq<Seq<T>>
    decreases groups.len() - g, 0int, groups[g].len() + 1 - take,
{
    if g < 0 || g >= groups.len() || take < 0 || take > spec_max_take(groups, rem, g) {
        Seq::empty()
    } else {
        spec_prepend_all(groups[g].take(take), spec_group_subsets(groups, (rem - take) as nat, g + 1))
            + spec_group_subsets_from(groups, rem, g, take + 1)
    }
}

/// The empty subset comes first.
pub proof fn lemma_group_subsets_empty_first<T>(groups: Seq<Seq<T>>, rem: nat, g: int)
    requires
        0 <= g <= groups.len(),
    ensures
        spec_group_subsets(groups, rem, g).len() >= 1,
        spec_group_subsets(groups, rem, g)[0] == Seq::<T>::empty(),
    decreases groups.len() - g,
{
    if g < groups.len() {
        lemma_group_subsets_empty_first(groups, rem, g + 1);
        let sub = spec_group_subsets(groups, rem, g + 1);
        assert(groups[g].take(0) =~= Seq::<T>::empty());
        let head = spec_prepend_all(groups[g].take(0), sub);
        assert(spec_group_subsets(groups, rem, g) == head + spec_group_subsets_from(groups, rem, g, 1));
        assert(head[0] =~= Seq::<T>::empty());
    }
}

pub proof fn lemma_cap_assoc<T>(a: Seq<Seq<T>>, b: Seq<Seq<T>>, c: Seq<Seq<T>>, cap: nat)
    ensures
        spec_cap(spec_cap(a + b, cap) + c, cap) == spec_cap(a + (b + c), cap),
{
    assert(a + (b + c) =~= (a + b) + c);
    if (a + b).len() > cap {
        assert(spec_cap(spec_cap(a + b, cap) + c, cap) =~= ((a + b) + c).take(cap as int));
    }
}

proof fn lemma_prepend_concat<T>(p: Seq<T>, a: Seq<Seq<T>>, b: Seq<Seq<T>>)
    ensures
        spec_prepend_all(p, a + b) == spec_prepend_all(p, a) + spec_prepend_all(p, b),
{
    assert(spec_prepend_all(p, a + b) =~= spec_prepend_all(p, a) + spec_prepend_all(p, b));
}

proof fn lemma_prepend_twice<T>(p: Seq<T>, q: Seq<T>, l: Seq<Seq<T>>)
    ensures
        spec_prepend_all(p, spec_prepend_all(q, l)) == spec_prepend_all(p + q, l),
{
    assert forall|j: int| 0 <= j < l.len() implies spec_prepend_all(p, spec_prepend_all(q, l))[j]
        == spec_prepend_all(p + q, l)[j] by {
        assert(p + (q + l[j]) =~= (p + q) + l[j]);
    }
    assert(spec_prepend_all(p, spec_prepend_all(q, l)) =~= spec_prepend_all(p + q, l));
}

fn enumerate_groups<T: Copy>(
    groups: &[Vec<T>],
    remaining: usize,
    gidx: usize,
    current: &mut Vec<T>,
    out: &mut Vec<Vec<T>>,
    cap: usize,
)
    requires
        gidx <= groups@.len(),
        old(out)@.len() <= cap,
    ensures
        final(current)@ == old(current)@,
        final(out)@.len() <= cap,
        seq_views(final(out)@) == spec_cap(
            seq_views(old(out)@) + spec_prepend_all(
                old(current)@,
                spec_group_subsets(seq_views(groups@), remaining as nat, gidx as int),
            ),
            cap as nat,
        ),
    decreases groups@.len() - gidx,
{
    let ghost gs = seq_views(groups@);
    let ghost start = seq_views(out@);
    let ghost cur0 = current@;
    let ghost whole = spec_prepend_all(cur0, spec_group_subsets(gs, remaining as nat, gidx as int));
    if out.len() >= cap {
        proof {
            assert(spec_cap(start + whole, cap as nat) =~= start);
        }
        return;
    }
    if gidx == groups.len() {
        let mut copy: Vec<T> = Vec::new();
        let mut k: usize = 0;
        while k < current.len()
            invariant
                k <= current@.len(),
                copy@ == current@.take(k as int),
            decreases current@.len() - k,
        {
            copy.push(current[k]);
            proof {
                assert(copy@ =~= current@.take(k + 1));
            }
            k = k + 1;
        }
        proof {
            assert(current@.take(k as int) =~= current@);
        }
        let ghost ov = out@;
        out.push(copy);
        proof {
            assert(whole =~= seq![cur0]) by {
                assert(cur0 + Seq::<T>::empty() =~= cur0);
            }
            assert(out@ == ov.push(out@[ov.len() as int]));
            assert(seq_views(out@) =~= start + whole);
        }
        return;
    }
    let group = &groups[gidx as usize];
    let max_take: usize = if group.len() <= remaining {
        group.len()
    } else {
        remaining
    };
    proof {
        assert(gs[gidx as int] == group@);
        assert(spec_max_take(gs, remaining as nat, gidx as int) == max_take);
        assert(spec_group_subsets(gs, remaining as nat, gidx as int) == spec_group_subsets_from(
            gs,
            remaining as nat,
            gidx as int,
            0,
        ));
    }
    let n_groups = groups.len();
    let mut take: usize = 0;
    loop
        invariant
            n_groups == groups@.len(),
            gidx < groups@.len(),
            gs == seq_views(groups@),
            group@ == gs[gidx as int],
            max_take == spec_max_take(gs, remaining as nat, gidx as int),
            max_take <= remaining,
            take <= max_take,
            current@ == cur0,
            out@.len() <= cap,
            start == seq_views(old(out)@),
            cur0 == old(current)@,
            whole == spec_prepend_all(cur0, spec_group_subsets(gs, remaining as nat, gidx as int)),
            spec_cap(
                seq_views(out@) + spec_prepend_all(
                    cur0,
                    spec_group_subsets_from(gs, remaining as nat, gidx as int, take as int),
                ),
                cap as nat,
            ) == spec_cap(start + whole, cap as nat),
        decreases max_take - take,
    {
        let ghost now = seq_views(out@);
        if out.len() >= cap {
            proof {
                let rest = spec_prepend_all(cur0, spec_group_subsets_from(gs, remaining as nat, gidx as int, take as int));
                assert(spec_cap(now + rest, cap as nat) =~= now);
            }
            return;
        }
        let mut k: usize = 0;
        while k < take
            invariant
                k <= take,
                take <= group@.len(),
                current@ == cur0 + group@.take(k as int),
            decreases take - k,
        {
            current.push(group[k]);
            proof {
                assert(current@ =~= cur0 + group@.take(k + 1));
            }
            k = k + 1;
        }
        let ghost pushed = current@;
        enumerate_groups(groups, remaining - take, gidx + 1, current, out, cap);
        let mut k2: usize = 0;
        while k2 < take
            invariant
                k2 <= take,
                take <= group@.len(),
                pushed == cur0 + group@.take(take as int),
                current@ == pushed.take(cur0.len() + take - k2),
            decreases take - k2,
        {
            current.pop();
            proof {
                assert(current@ =~= pushed.take(cur0.len() + take - (k2 + 1)));
            }
            k2 = k2 + 1;
        }
        proof {
            assert(current@ =~= cur0);
            let part = group@.take(take as int);
            let sub = spec_group_subsets(gs, (remaining - take) as nat, gidx + 1);
            let e = spec_prepend_all(pushed, sub);
            let g = spec_prepend_all(cur0, spec_group_subsets_from(gs, remaining as nat, gidx as int, take + 1));
            assert(spec_group_subsets_from(gs, remaining as nat, gidx as int, take as int) == spec_prepend_all(part, sub)
                + spec_group_subsets_from(gs, remaining as nat, gidx as int, take + 1));
            lemma_prepend_concat(cur0, spec_prepend_all(part, sub), spec_group_subsets_from(gs, remaining as nat, gidx as int, take + 1));
            lemma_prepend_twice(cur0, part, sub);
            lemma_cap_assoc(now, e, g, cap as nat);
        }
        if take == max_take {
            proof {
                assert(spec_group_subsets_from(gs, remaining as nat, gidx as int, take + 1) =~= Seq::<Seq<T>>::empty());
                assert(spec_prepend_all(cur0, Seq::<Seq<T>>::empty()) =~= Seq::<Seq<T>>::empty());
                assert(seq_views(out@) + Seq::<Seq<T>>::empty() =~= seq_views(out@));
            }
            return;
        }
        take = take + 1;
    }
}


/// The distinct values of `keys`, in order of first appearance.
pub open spec fn spec_distinct_keys(keys: Seq<u32>) -> Seq<u32>
    decreases keys.len(),
{
    if keys.len() == 0 {
        Seq::empty()
    } else {
        let p = spec_distinct_keys(keys.drop_last());
        if p.contains(keys.last()) {
            p
        } else {
            p.push(keys.last())
        }
    }
}

/// `cands` grouped by equal `keys` (item `i` has key `keys[i]`): one
/// group per distinct key in order of first appearance, each keeping
/// the order of `cands`.
pub open spec fn spec_groups<T>(cands: Seq<T>, keys: Seq<u32>) -> Seq<Seq<T>>
    decreases cands.len(),
{
    if cands.len() == 0 {
        Seq::empty()
    } else {
        let n = cands.len() - 1;
        let gk = spec_distinct_keys(keys.take(n));
        let gs = spec_groups(cands.take(n), keys.take(n));
        if gk.contains(keys[n]) {
            let j = gk.index_of(keys[n]);
            gs.update(j, gs[j].push(cands[n]))
        } else {
            gs.push(seq![cands[n]])
        }
    }
}

/// Every distinct subset of `candidates` of at most `max_size` items, up
/// to interchangeable items: two candidates with the same `key` are
/// interchangeable, so one subset is emitted per multiset of keys rather
/// than per choice of items. The empty subset comes first; at most `cap`
/// subsets are emitted.
pub fn enumerate_equivalence_subsets<T: Copy, F: Fn(&T) -> u32>(
    candidates: &[T],
    max_size: usize,
    cap: usize,
    key: F,
) -> (out: Vec<Vec<T>>)
    requires
        forall|i: int| 0 <= i < candidates@.len() ==> call_requires(key, (&candidates@[i],)),
    ensures
        exists|keys: Seq<u32>|
            {
                &&& keys.len() == candidates@.len()
                &&& forall|i: int| 0 <= i < keys.len() ==> call_ensures(key, (&candidates@[i],), #[trigger] keys[i])
                &&& seq_views(out@) == spec_cap(
                    spec_group_subsets(spec_groups(candidates@, keys), max_size as nat, 0),
                    cap as nat,
                )
            },
        out@.len() <= cap,
        cap > 0 ==> out@.len() >= 1 && out@[0]@ == Seq::<T>::empty(),
{
    broadcast use vstd::std_specs::hash::group_hash_axioms;
    let ghost cs = candidates@;
    let mut groups: Vec<Vec<T>> = Vec::new();
    let mut index: HashMap<u32, usize> = HashMap::new();
    let ghost mut keys: Seq<u32> = Seq::empty();
    let mut i: usize = 0;
    while i < candidates.len()
        invariant
            i <= cs.len(),
            cs == candidates@,
            forall|j: int| 0 <= j < cs.len() ==> call_requires(key, (&cs[j],)),
            keys.len() == i,
            forall|j: int| 0 <= j < i ==> call_ensures(key, (&cs[j],), #[trigger] keys[j]),
            groups@.len() == spec_distinct_keys(keys).len(),
            spec_distinct_keys(keys).no_duplicates(),
            seq_views(groups@) == spec_groups(cs.take(i as int), keys),
            forall|k: u32| #[trigger] index@.contains_key(k) <==> spec_distinct_keys(keys).contains(k),
            forall|j: int|
                0 <= j < spec_distinct_keys(keys).len() ==> index@[#[trigger] spec_distinct_keys(keys)[j]] == j,
        decreases cs.len() - i,
    {
        let item = candidates[i];
        let k = key(&candidates[i]);
        let ghost gk = spec_distinct_keys(keys);
        let ghost old_views = seq_views(groups@);
        let ghost nk = keys.push(k);
        proof {
            assert(nk.drop_last() =~= keys);
            assert(nk.take(i as int) =~= keys);
            assert(cs.take(i + 1).take(i as int) =~= cs.take(i as int));
            assert(cs.take(i + 1)[i as int] == item);
        }
        match index.get(&k) {
            Some(j) => {
                let j = *j;
                proof {
                    assert(gk.contains(k));
                    let w = choose|w: int| 0 <= w < gk.len() && gk[w] == k;
                    assert(index@[gk[w]] == w);
                    assert(j == w);
                    assert(gk.index_of(k) == j) by {
                        let c = gk.index_of(k);
                        assert(0 <= c < gk.len() && gk[c] == k);
                    }
                }
                let ghost gv = groups@[j as int]@;
                groups[j].push(item);
                proof {
                    assert(spec_distinct_keys(nk) == gk);
                    assert(seq_views(groups@) =~= old_views.update(j as int, gv.push(item)));
                }
            },
            None => {
                proof {
                    assert(!gk.contains(k));
                }
                let mut fresh: Vec<T> = Vec::new();
                fresh.push(item);
                let pos = groups.len();
                groups.push(fresh);
                let ghost oi = index@;
                index.insert(k, pos);
                proof {
                    assert(index@ == oi.insert(k, pos));
                    assert(spec_distinct_keys(nk) == gk.push(k));
                    assert(seq_views(groups@) =~= old_views.push(seq![item]));
                    assert forall|kk: u32| #[trigger] index@.contains_key(kk) <==> gk.push(k).contains(kk) by {
                        assert(oi.contains_key(kk) <==> gk.contains(kk));
                        if kk == k {
                            assert(gk.push(k)[gk.len() as int] == k);
                        }
                        if gk.push(k).contains(kk) && kk != k {
                            let w = choose|w: int| 0 <= w < gk.push(k).len() && gk.push(k)[w] == kk;
                            assert(w < gk.len());
                            assert(gk.contains(kk));
                        }
                        if gk.contains(kk) {
                            let w = choose|w: int| 0 <= w < gk.len() && gk[w] == kk;
                            assert(gk.push(k)[w] == kk);
                        }
                    }
                    assert forall|j: int| 0 <= j < gk.push(k).len() implies index@[#[trigger] gk.push(k)[j]] == j by {
                        if j < gk.len() {
                            assert(gk.push(k)[j] == gk[j]);
                            assert(gk[j] != k);
                            assert(oi[gk[j]] == j);
                        }
                    }
                }
            },
        }
        proof {
            keys = nk;
        }
        i = i + 1;
    }
    proof {
        assert(cs.take(i as int) =~= cs);
    }
    let mut out: Vec<Vec<T>> = Vec::new();
    let mut current: Vec<T> = Vec::new();
    enumerate_groups(groups.as_slice(), max_size, 0, &mut current, &mut out, cap);
    proof {
        let full = spec_group_subsets(spec_groups(cs, keys), max_size as nat, 0);
        assert(spec_prepend_all(Seq::<T>::empty(), full) =~= full) by {
            assert forall|j: int| 0 <= j < full.len() implies spec_prepend_all(Seq::<T>::empty(), full)[j] == full[j] by {
                assert(Seq::<T>::empty() + full[j] =~= full[j]);
            }
        }
        assert(seq_views(Seq::<Vec<T>>::empty()) + spec_prepend_all(Seq::<T>::empty(), full) =~= full);
        lemma_group_subsets_empty_first(spec_groups(cs, keys), max_size as nat, 0);
        assert(seq_views(out@).len() == out@.len());
        if cap > 0 {
            assert(out@.len() >= 1);
            assert(seq_views(out@)[0] == out@[0]@);
        }
    }
    out
}


// =============================================================================
// Combat damage distributions
// =============================================================================

/// Least damage a blocker with lethal damage `lethal` takes before the
/// next one may be dealt any.
pub open spec fn spec_lethal_floor(lethal: u32) -> nat {
    if lethal >= 1 {
        lethal as nat
    } else {
        1
    }
}

/// The distributions of `rem` damage over `blockers` (each a blocker and
/// the damage lethal to it, in damage-assignment order): first all of it
/// on the first blocker; then, for each amount `k` from its lethal floor
/// up, `k` on it and the rest distributed over the later blockers; then,
/// with trample and no later blocker, each such `k` on it alone, the rest
/// going to the player.
pub open spec fn spec_distributions(rem: nat, blockers: Seq<(ObjectId, u32)>, trample: bool) -> Seq<Seq<(ObjectId, u32)>>
    decreases blockers.len(), 1int, 0int,
{
    if rem == 0 {
        seq![Seq::empty()]
    } else if blockers.len() == 0 {
        Seq::empty()
    } else {
        let blk = blockers[0].0;
        let lb = spec_lethal_floor(blockers[0].1);
        seq![seq![(blk, rem as u32)]] + spec_distributions_from(rem, blockers, trample, lb as int) + if trample
            && blockers.len() == 1 {
            spec_trample_tail(blk, lb, rem)
        } else {
            Seq::empty()
        }
    }
}

/// Those distributions of `spec_distributions(rem, blockers, trample)`
/// that put `k`, `k + 1`, ... below `rem` on the first blocker and go on.
pub open spec fn spec_distributions_from(rem: nat, blockers: Seq<(ObjectId, u32)>, trample: bool, k: int) -> Seq<Seq<(ObjectId, u32)>>
    decreases blockers.len(), 0int, rem - k,
{
    if blockers.len() == 0 || k < 0 || k >= rem {
        Seq::empty()
    } else {
        spec_prepend_all(seq![(blockers[0].0, k as u32)], spec_distributions((rem - k) as nat, blockers.drop_first(), trample))
            + spec_distributions_from(rem, blockers, trample, k + 1)
    }
}

/// `[(blk, k)]` for each `k` from `lb` below `rem`.
pub open spec fn spec_trample_tail(blk: ObjectId, lb: nat, rem: nat) -> Seq<Seq<(ObjectId, u32)>> {
    if lb < rem {
        Seq::new((rem - lb) as nat, |i: int| seq![(blk, (lb + i) as u32)])
    } else {
        Seq::empty()
    }
}

fn copy_pairs(v: &Vec<(ObjectId, u32)>) -> (r: Vec<(ObjectId, u32)>)
    ensures
        r@ == v@,
{
    let mut r: Vec<(ObjectId, u32)> = Vec::new();
    let mut i: usize = 0;
    while i < v.len()
        invariant
            i <= v@.len(),
            r@ == v@.take(i as int),
        decreases v@.len() - i,
    {
        r.push(v[i]);
        proof {
            assert(r@ =~= v@.take(i + 1));
        }
        i = i + 1;
    }
    proof {
        assert(v@.take(i as int) =~= v@);
    }
    r
}

/// Push `item` on `out`, which grows by it.
proof fn lemma_push_views<T>(before: Seq<Vec<T>>, after: Seq<Vec<T>>, item: Seq<T>)
    requires
        after.len() == before.len() + 1,
        forall|j: int| 0 <= j < before.len() ==> after[j] == before[j],
        after[before.len() as int]@ == item,
    ensures
        seq_views(after) == seq_views(before).push(item),
{
    assert(seq_views(after) =~= seq_views(before).push(item));
}

/// Every legal split of `remaining` combat damage over `blockers` (each
/// with the damage lethal to it, in damage-assignment order), each put
/// after `current` on `out`: a blocker gets at least its lethal damage
/// (at least 1) before the next gets any; the last may keep all the rest,
/// or, with trample, as little as lethal with the rest going to the
/// player. Stops once `out` holds `MAX_COMBAT_ENUM` entries, so exactly
/// the first ones are emitted; dumping everything on the first blocker
/// comes first.
pub fn recurse_distributions(
    remaining: u32,
    blockers: &[(ObjectId, u32)],
    current: Vec<(ObjectId, u32)>,
    has_trample: bool,
    out: &mut Vec<Vec<(ObjectId, u32)>>,
)
    requires
        old(out)@.len() <= MAX_COMBAT_ENUM,
    ensures
        final(out)@.len() <= MAX_COMBAT_ENUM,
        seq_views(final(out)@) == spec_cap(
            seq_views(old(out)@) + spec_prepend_all(current@, spec_distributions(remaining as nat, blockers@, has_trample)),
            MAX_COMBAT_ENUM as nat,
        ),
    decreases blockers@.len(),
{
    let ghost start = seq_views(out@);
    let ghost cur = current@;
    let ghost whole = spec_prepend_all(cur, spec_distributions(remaining as nat, blockers@, has_trample));
    let ghost cap = MAX_COMBAT_ENUM as nat;
    if out.len() >= MAX_COMBAT_ENUM {
        proof {
            assert(spec_cap(start + whole, cap) =~= start);
        }
        return;
    }
    if remaining == 0 {
        let ghost ov = out@;
        out.push(current);
        proof {
            lemma_push_views(ov, out@, cur);
            assert(whole =~= seq![cur]) by {
                assert(cur + Seq::<(ObjectId, u32)>::empty() =~= cur);
            }
            assert(seq_views(out@) =~= start + whole);
        }
        return;
    }
    if blockers.len() == 0 {
        proof {
            assert(whole =~= Seq::<Seq<(ObjectId, u32)>>::empty());
            assert(start + whole =~= start);
        }
        return;
    }
    let (blk, lethal) = blockers[0];
    let n = blockers.len();
    let rest = vstd::slice::slice_subrange(blockers, 1, n);
    let ghost lb_spec = spec_lethal_floor(lethal);
    let ghost term_v = cur.push((blk, remaining));
    let ghost mid = spec_prepend_all(cur, spec_distributions_from(remaining as nat, blockers@, has_trample, lb_spec as int));
    let ghost tail = spec_prepend_all(cur, if has_trample && blockers@.len() == 1 {
        spec_trample_tail(blk, lb_spec, remaining as nat)
    } else {
        Seq::empty()
    });
    proof {
        assert(rest@ =~= blockers@.drop_first());
        assert(blockers@[0] == (blk, lethal));
        let d = spec_distributions(remaining as nat, blockers@, has_trample);
        let first = seq![seq![(blk, remaining)]];
        let fm = spec_distributions_from(remaining as nat, blockers@, has_trample, lb_spec as int);
        let tl = if has_trample && blockers@.len() == 1 {
            spec_trample_tail(blk, lb_spec, remaining as nat)
        } else {
            Seq::empty()
        };
        assert(d == first + fm + tl);
        lemma_prepend_concat(cur, first + fm, tl);
        lemma_prepend_concat(cur, first, fm);
        assert(spec_prepend_all(cur, first) =~= seq![term_v]) by {
            assert(cur + seq![(blk, remaining)] =~= term_v);
        }
        assert(whole =~= seq![term_v] + mid + tail);
    }
    let mut term = copy_pairs(&current);
    term.push((blk, remaining));
    let ghost ov = out@;
    out.push(term);
    proof {
        lemma_push_views(ov, out@, term_v);
        assert(seq_views(out@) == spec_cap(start + seq![term_v], cap));
        lemma_cap_assoc(start, seq![term_v], mid + tail, cap);
        assert(seq![term_v] + (mid + tail) =~= seq![term_v] + mid + tail);
    }
    let lb: u32 = if lethal >= 1 {
        lethal
    } else {
        1
    };
    let mut k: u32 = lb;
    while k < remaining
        invariant
            cap == MAX_COMBAT_ENUM as nat,
            tail == spec_prepend_all(cur, if has_trample && blockers@.len() == 1 {
                spec_trample_tail(blk, lb_spec, remaining as nat)
            } else {
                Seq::empty()
            }),
            lb == lb_spec,
            lb <= k,
            k <= remaining || k == lb,
            remaining > 0,
            blockers@.len() > 0,
            rest@ == blockers@.drop_first(),
            blockers@[0] == (blk, lethal),
            cur == current@,
            out@.len() <= MAX_COMBAT_ENUM,
            start == seq_views(old(out)@),
            whole == spec_prepend_all(cur, spec_distributions(remaining as nat, blockers@, has_trample)),
            spec_cap(
                seq_views(out@) + (spec_prepend_all(cur, spec_distributions_from(remaining as nat, blockers@, has_trample, k as int)) + tail),
                cap,
            ) == spec_cap(start + whole, cap),
        decreases remaining - k,
    {
        let ghost now = seq_views(out@);
        let ghost from_k = spec_prepend_all(cur, spec_distributions_from(remaining as nat, blockers@, has_trample, k as int));
        if out.len() >= MAX_COMBAT_ENUM {
            proof {
                assert(now.len() == out@.len());
                assert(spec_cap(now + (from_k + tail), cap) =~= now);
            }
            return;
        }
        let mut next = copy_pairs(&current);
        next.push((blk, k));
        let ghost nv = next@;
        recurse_distributions(remaining - k, rest, next, has_trample, out);
        proof {
            let sub = spec_distributions((remaining - k) as nat, rest@, has_trample);
            let e = spec_prepend_all(nv, sub);
            let g = spec_prepend_all(cur, spec_distributions_from(remaining as nat, blockers@, has_trample, k + 1));
            assert(spec_distributions_from(remaining as nat, blockers@, has_trample, k as int) == spec_prepend_all(
                seq![(blk, k)],
                sub,
            ) + spec_distributions_from(remaining as nat, blockers@, has_trample, k + 1));
            lemma_prepend_concat(cur, spec_prepend_all(seq![(blk, k)], sub), spec_distributions_from(remaining as nat, blockers@, has_trample, k + 1));
            lemma_prepend_twice(cur, seq![(blk, k)], sub);
            assert(nv == cur + seq![(blk, k)]);
            assert(from_k == e + g);
            lemma_cap_assoc(now, e, g + tail, cap);
            assert(e + (g + tail) =~= (e + g) + tail);
            assert(seq_views(out@) == spec_cap(now + e, cap));
            assert(spec_cap(seq_views(out@) + (g + tail), cap) == spec_cap(now + (from_k + tail), cap));
        }
        k = k + 1;
    }
    proof {
        assert(spec_distributions_from(remaining as nat, blockers@, has_trample, k as int) =~= Seq::<Seq<(ObjectId, u32)>>::empty());
        assert(spec_prepend_all(cur, Seq::<Seq<(ObjectId, u32)>>::empty()) =~= Seq::<Seq<(ObjectId, u32)>>::empty());
        assert(seq_views(out@) + (Seq::<Seq<(ObjectId, u32)>>::empty() + tail) =~= seq_views(out@) + tail);
    }
    if has_trample && rest.len() == 0 {
        let mut k2: u32 = lb;
        while k2 < remaining
            invariant
                cap == MAX_COMBAT_ENUM as nat,
                start == seq_views(old(out)@),
                whole == spec_prepend_all(cur, spec_distributions(remaining as nat, blockers@, has_trample)),
                lb == lb_spec,
                lb <= k2,
                k2 <= remaining || k2 == lb,
                cur == current@,
                blockers@.len() == 1,
                blockers@[0] == (blk, lethal),
                has_trample,
                out@.len() <= MAX_COMBAT_ENUM,
                tail == spec_prepend_all(cur, spec_trample_tail(blk, lb_spec, remaining as nat)),
                spec_cap(
                    seq_views(out@) + spec_prepend_all(cur, spec_trample_tail(blk, k2 as nat, remaining as nat)),
                    cap,
                ) == spec_cap(start + whole, cap),
            decreases remaining - k2,
        {
            let ghost now = seq_views(out@);
            let ghost tt = spec_prepend_all(cur, spec_trample_tail(blk, k2 as nat, remaining as nat));
            if out.len() >= MAX_COMBAT_ENUM {
                proof {
                    assert(now.len() == out@.len());
                    assert(spec_cap(now + tt, cap) =~= now);
                }
                return;
            }
            let mut next = copy_pairs(&current);
            next.push((blk, k2));
            let ghost nv = next@;
            let ghost ov2 = out@;
            out.push(next);
            proof {
                lemma_push_views(ov2, out@, nv);
                let rest_t = spec_prepend_all(cur, spec_trample_tail(blk, (k2 + 1) as nat, remaining as nat));
                assert(tt =~= seq![nv] + rest_t) by {
                    assert(nv =~= cur + seq![(blk, k2)]);
                    assert forall|j: int| 0 <= j < tt.len() implies tt[j] == (seq![nv] + rest_t)[j] by {
                        if j > 0 {
                            assert(spec_trample_tail(blk, k2 as nat, remaining as nat)[j] == spec_trample_tail(
                                blk,
                                (k2 + 1) as nat,
                                remaining as nat,
                            )[j - 1]);
                        }
                    }
                }
                lemma_cap_assoc(now, seq![nv], rest_t, cap);
                assert(now.push(nv) =~= now + seq![nv]);
                assert(out@.len() <= cap);
            }
            k2 = k2 + 1;
        }
        proof {
            assert(spec_trample_tail(blk, k2 as nat, remaining as nat) =~= Seq::<Seq<(ObjectId, u32)>>::empty());
            assert(spec_prepend_all(cur, Seq::<Seq<(ObjectId, u32)>>::empty()) =~= Seq::<Seq<(ObjectId, u32)>>::empty());
            assert(seq_views(out@) + Seq::<Seq<(ObjectId, u32)>>::empty() =~= seq_views(out@));
        }
    } else {
        proof {
            assert(tail =~= Seq::<Seq<(ObjectId, u32)>>::empty());
            assert(seq_views(out@) + Seq::<Seq<(ObjectId, u32)>>::empty() =~= seq_views(out@));
        }
    }
}

} // verus!
