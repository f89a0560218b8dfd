use arcana_core::mana::{
    can_afford, enumerate_payment_plans, ManaCost, ManaCostComponent, ManaCostParseError,
    ManaPaymentPlan, ManaPool, ManaRestrictions, ManaUnit, SpendContext, SpendRestriction,
};
use arcana_core::types::{Color, ColorSet, ManaColor, TypeLine};

fn parse(s: &str) -> ManaCost {
    match ManaCost::parse(s) {
        Ok(c) => c,
        Err(e) => panic!("failed to parse {s:?}: {e:?}"),
    }
}

#[test]
fn parse_empty_cost() {
    let c = parse("");
    assert!(c.is_empty());
    assert_eq!(c.mana_value(), 0);
}

#[test]
fn parse_simple_cost() {
    let c = parse("{1}{G}");
    assert_eq!(
        c.components,
        vec![ManaCostComponent::Generic(1), ManaCostComponent::Colored(Color::Green)]
    );
    assert_eq!(c.mana_value(), 2);
}

#[test]
fn parse_pure_generic() {
    let c = parse("{3}");
    assert_eq!(c.components, vec![ManaCostComponent::Generic(3)]);
    assert_eq!(c.mana_value(), 3);
}

#[test]
fn parse_zero() {
    let c = parse("{0}");
    assert_eq!(c.components, vec![ManaCostComponent::Generic(0)]);
    assert_eq!(c.mana_value(), 0);
}

#[test]
fn parse_double_digit_generic() {
    let c = parse("{15}");
    assert_eq!(c.components, vec![ManaCostComponent::Generic(15)]);
}

#[test]
fn parse_x_cost() {
    let c = parse("{X}{R}");
    assert_eq!(
        c.components,
        vec![ManaCostComponent::X, ManaCostComponent::Colored(Color::Red)]
    );
    assert_eq!(c.mana_value(), 1);
    assert_eq!(c.mana_value_with_x(3), 4);
    assert_eq!(c.x_count(), 1);
}

#[test]
fn parse_colorless_symbol() {
    let c = parse("{C}");
    assert_eq!(c.components, vec![ManaCostComponent::Colorless]);
    assert_eq!(c.mana_value(), 1);
    assert!(c.colors().is_colorless());
}

#[test]
fn parse_colorless_vs_generic_one_are_distinct() {
    let colorless = parse("{C}");
    let generic_one = parse("{1}");
    assert_ne!(colorless.components, generic_one.components);
}

#[test]
fn parse_hybrid() {
    let c = parse("{W/U}");
    assert_eq!(c.components, vec![ManaCostComponent::Hybrid(Color::White, Color::Blue)]);
    assert_eq!(c.mana_value(), 1);
    let colors = c.colors();
    assert!(colors.contains(Color::White));
    assert!(colors.contains(Color::Blue));
}

#[test]
fn parse_phyrexian() {
    let c = parse("{W/P}");
    assert_eq!(c.components, vec![ManaCostComponent::PhyrexianColored(Color::White)]);
}

#[test]
fn parse_phyrexian_hybrid() {
    let c = parse("{B/R/P}");
    assert_eq!(
        c.components,
        vec![ManaCostComponent::PhyrexianHybrid(Color::Black, Color::Red)]
    );
}

#[test]
fn parse_monohybrid() {
    let c = parse("{2/W}");
    assert_eq!(c.components, vec![ManaCostComponent::MonoHybrid(Color::White)]);
    assert_eq!(c.mana_value(), 2);
}

#[test]
fn parse_snow() {
    let c = parse("{S}{2}");
    assert_eq!(c.components, vec![ManaCostComponent::Snow, ManaCostComponent::Generic(2)]);
    assert_eq!(c.mana_value(), 3);
}

#[test]
fn parse_complex_cost() {
    let c = parse("{2/W}{2/U}{2/B}{2/R}{2/G}");
    assert_eq!(c.components.len(), 5);
    assert_eq!(c.mana_value(), 10);
    assert_eq!(c.colors().len(), 5);
}

#[test]
fn parse_whitespace_is_tolerated() {
    let c = parse("  {1} {G}  ");
    assert_eq!(
        c.components,
        vec![ManaCostComponent::Generic(1), ManaCostComponent::Colored(Color::Green)]
    );
}

#[test]
fn parse_error_missing_brace() {
    let err = ManaCost::parse("W").unwrap_err();
    assert_eq!(err, ManaCostParseError::ExpectedOpenBrace('W'));
}

#[test]
fn parse_error_unterminated() {
    let err = ManaCost::parse("{W").unwrap_err();
    assert_eq!(err, ManaCostParseError::UnterminatedBrace);
}

#[test]
fn parse_error_empty_symbol() {
    let err = ManaCost::parse("{}").unwrap_err();
    assert_eq!(err, ManaCostParseError::EmptyToken);
}

#[test]
fn parse_error_invalid_token() {
    let err = ManaCost::parse("{Q}").unwrap_err();
    assert_eq!(err, ManaCostParseError::InvalidToken("Q".into()));
}

#[test]
fn parse_error_bad_monohybrid() {
    let err = ManaCost::parse("{3/W}").unwrap_err();
    assert_eq!(err, ManaCostParseError::InvalidMonoHybrid(3));
}

#[test]
fn parse_error_invalid_color_in_hybrid() {
    let err = ManaCost::parse("{Q/W}").unwrap_err();
    assert_eq!(err, ManaCostParseError::InvalidColor("Q".into()));
}

#[test]
fn display_roundtrip() {
    for s in &[
        "", "{0}", "{1}{G}", "{X}{R}{R}", "{W/U}{W/U}", "{2/W}{2/U}", "{W/P}", "{B/R/P}",
        "{S}{S}{2}", "{C}", "{15}",
    ] {
        let parsed = ManaCost::parse(s).expect(s);
        let displayed = parsed.to_string();
        assert_eq!(displayed, *s, "roundtrip failed for {s:?}");
    }
}

#[test]
fn mana_value_ignores_x_by_default() {
    assert_eq!(parse("{X}{X}{R}").mana_value(), 1);
}

#[test]
fn mana_value_with_x_multiplies() {
    assert_eq!(parse("{X}{X}{R}").mana_value_with_x(3), 7);
}

#[test]
fn colors_of_generic_only() {
    assert!(parse("{3}").colors().is_colorless());
}

#[test]
fn colors_of_multicolor_spell() {
    let c = parse("{1}{W}{U}{B}");
    let colors = c.colors();
    assert_eq!(colors.len(), 3);
    assert!(colors.contains(Color::White));
    assert!(colors.contains(Color::Blue));
    assert!(colors.contains(Color::Black));
}

#[test]
fn is_simple_detection() {
    assert!(parse("{1}{G}").is_simple());
    assert!(parse("{3}").is_simple());
    assert!(parse("{S}{1}").is_simple());
    assert!(!parse("{X}{R}").is_simple());
    assert!(!parse("{W/U}").is_simple());
    assert!(!parse("{2/W}").is_simple());
    assert!(!parse("{W/P}").is_simple());
}

#[test]
fn manapool_starts_empty() {
    let p = ManaPool::new();
    assert!(p.is_empty());
    assert_eq!(p.len(), 0);
}

#[test]
fn manapool_add_and_count() {
    let mut p = ManaPool::new();
    let src = 42;
    p.add_mana(ManaColor::Red, 3, src);
    p.add_mana(ManaColor::Blue, 2, src);
    assert_eq!(p.len(), 5);
    assert_eq!(p.count_color(ManaColor::Red), 3);
    assert_eq!(p.count_color(ManaColor::Blue), 2);
    assert_eq!(p.count_color(ManaColor::Green), 0);
}

#[test]
fn manapool_clear_empties() {
    let mut p = ManaPool::new();
    p.add_mana(ManaColor::Red, 3, 0);
    p.clear();
    assert!(p.is_empty());
}

#[test]
fn manapool_holds_colorless_mana() {
    let mut p = ManaPool::new();
    p.add_mana(ManaColor::Colorless, 2, 0);
    p.add_mana(ManaColor::Red, 1, 0);
    assert_eq!(p.count_color(ManaColor::Colorless), 2);
    assert_eq!(p.count_color(ManaColor::Red), 1);
}

#[test]
fn manapool_restricted_vs_unrestricted_count() {
    let mut p = ManaPool::new();
    p.add(ManaUnit::plain(ManaColor::Red, 0));
    p.add(ManaUnit {
        color: ManaColor::Red,
        source: 0,
        restrictions: ManaRestrictions {
            spend_only_on: Some(SpendRestriction::OnlyCastCreatureSpells),
            is_snow: false,
        },
    });
    assert_eq!(p.count_color(ManaColor::Red), 2);
    assert_eq!(p.count_unrestricted_color(ManaColor::Red), 1);
}

fn pool_of(colors: &[ManaColor]) -> ManaPool {
    let mut p = ManaPool::new();
    for c in colors {
        p.add(ManaUnit::plain(*c, 0));
    }
    p
}

fn nonspell_ctx() -> SpendContext {
    SpendContext::unrestricted()
}

fn creature_spell_ctx() -> SpendContext {
    SpendContext::for_spell(TypeLine::CREATURE.into(), ColorSet::green())
}

fn instant_spell_ctx() -> SpendContext {
    SpendContext::for_spell(TypeLine::INSTANT.into(), ColorSet::red())
}

fn solve(cost: &str, pool: &ManaPool, ctx: &SpendContext) -> Vec<ManaPaymentPlan> {
    enumerate_payment_plans(&parse(cost), pool, None, ctx)
}

fn solve_x(cost: &str, x: u32, pool: &ManaPool, ctx: &SpendContext) -> Vec<ManaPaymentPlan> {
    enumerate_payment_plans(&parse(cost), pool, Some(x), ctx)
}

#[test]
fn empty_cost_yields_one_trivial_plan() {
    let plans = solve("", &ManaPool::new(), &nonspell_ctx());
    assert_eq!(plans.len(), 1);
    assert!(plans[0].assignments.is_empty());
}

#[test]
fn zero_generic_needs_no_mana() {
    let plans = solve("{0}", &ManaPool::new(), &nonspell_ctx());
    assert_eq!(plans.len(), 1);
    assert!(plans[0].assignments.is_empty());
}

#[test]
fn unpayable_simple_cost_returns_empty() {
    let pool = pool_of(&[ManaColor::Red]);
    let plans = solve("{G}", &pool, &nonspell_ctx());
    assert!(plans.is_empty());
    assert!(!can_afford(&parse("{G}"), &pool, None, &nonspell_ctx()));
}

#[test]
fn simple_cost_pays_colored_first_then_generic() {
    let pool = pool_of(&[ManaColor::Green, ManaColor::Red]);
    let plans = solve("{1}{G}", &pool, &nonspell_ctx());
    assert_eq!(plans.len(), 1);
    let plan = &plans[0];
    assert_eq!(plan.assignments.len(), 2);
    let green_assign = plan.assignments.iter().find(|a| a.cost_index == 1).unwrap();
    assert_eq!(pool.pool[green_assign.pool_index].color, ManaColor::Green);
    let gen_assign = plan.assignments.iter().find(|a| a.cost_index == 0).unwrap();
    assert_eq!(pool.pool[gen_assign.pool_index].color, ManaColor::Red);
}

#[test]
fn simple_cost_distinguishes_colorless_from_generic_one() {
    let all_red = pool_of(&[ManaColor::Red]);
    assert!(solve("{C}", &all_red, &nonspell_ctx()).is_empty());
    assert_eq!(solve("{1}", &all_red, &nonspell_ctx()).len(), 1);

    let with_c = pool_of(&[ManaColor::Colorless]);
    assert_eq!(solve("{C}", &with_c, &nonspell_ctx()).len(), 1);
}

#[test]
fn simple_generic_with_any_leftover() {
    let pool = pool_of(&[ManaColor::Red, ManaColor::Red, ManaColor::Green]);
    let plans = solve("{2}", &pool, &nonspell_ctx());
    assert_eq!(plans.len(), 1);
    assert_eq!(plans[0].assignments.len(), 2);
}

#[test]
fn simple_ignores_insufficient_pool() {
    let pool = pool_of(&[ManaColor::Red]);
    assert!(solve("{2}", &pool, &nonspell_ctx()).is_empty());
}

#[test]
fn snow_cost_requires_snow_mana() {
    let mut plain = ManaPool::new();
    plain.add(ManaUnit::plain(ManaColor::Red, 0));
    assert!(solve("{S}", &plain, &nonspell_ctx()).is_empty());

    let mut snow = ManaPool::new();
    snow.add(ManaUnit {
        color: ManaColor::Red,
        source: 0,
        restrictions: ManaRestrictions { spend_only_on: None, is_snow: true },
    });
    assert_eq!(solve("{S}", &snow, &nonspell_ctx()).len(), 1);
}

#[test]
fn hybrid_enumerates_both_color_choices() {
    let pool = pool_of(&[ManaColor::White, ManaColor::Blue]);
    let plans = solve("{W/U}", &pool, &nonspell_ctx());
    assert_eq!(plans.len(), 2);
}

#[test]
fn hybrid_with_only_one_color_available_yields_one_plan() {
    let pool = pool_of(&[ManaColor::White]);
    let plans = solve("{W/U}", &pool, &nonspell_ctx());
    assert_eq!(plans.len(), 1);
}

#[test]
fn hybrid_same_color_deduplicates() {
    let cost = ManaCost { components: vec![ManaCostComponent::Hybrid(Color::White, Color::White)] };
    let pool = pool_of(&[ManaColor::White, ManaColor::White]);
    let plans = enumerate_payment_plans(&cost, &pool, None, &nonspell_ctx());
    assert_eq!(plans.len(), 1);
}

#[test]
fn monohybrid_has_two_branches() {
    let pool = pool_of(&[ManaColor::White, ManaColor::Red, ManaColor::Green]);
    let plans = solve("{2/W}", &pool, &nonspell_ctx());
    assert_eq!(plans.len(), 4);
}

#[test]
fn monohybrid_insufficient_for_2_generic_falls_to_color() {
    let pool = pool_of(&[ManaColor::White]);
    let plans = solve("{2/W}", &pool, &nonspell_ctx());
    assert_eq!(plans.len(), 1);
}

#[test]
fn phyrexian_colored_with_color_and_without() {
    let pool = pool_of(&[ManaColor::White]);
    let plans = solve("{W/P}", &pool, &nonspell_ctx());
    assert_eq!(plans.len(), 2);
    assert!(plans.iter().any(|p| !p.phyrexian_life_payments.is_empty()));
    assert!(plans.iter().any(|p| p.phyrexian_life_payments.is_empty()));
}

#[test]
fn phyrexian_colored_with_no_color_only_life() {
    let pool = ManaPool::new();
    let plans = solve("{W/P}", &pool, &nonspell_ctx());
    assert_eq!(plans.len(), 1);
    assert_eq!(plans[0].phyrexian_life_payments, vec![0]);
}

#[test]
fn phyrexian_hybrid_three_branches() {
    let pool = pool_of(&[ManaColor::Black, ManaColor::Red]);
    let plans = solve("{B/R/P}", &pool, &nonspell_ctx());
    assert_eq!(plans.len(), 3);
}

#[test]
fn x_expansion_makes_it_generic() {
    let pool = pool_of(&[ManaColor::Red, ManaColor::Red, ManaColor::Red]);
    let plans = solve_x("{X}{R}", 2, &pool, &nonspell_ctx());
    assert_eq!(plans.len(), 1);
    assert_eq!(plans[0].assignments.len(), 3);
}

#[test]
fn x_zero_is_legal() {
    let pool = pool_of(&[ManaColor::Red]);
    let plans = solve_x("{X}{R}", 0, &pool, &nonspell_ctx());
    assert_eq!(plans.len(), 1);
    assert_eq!(plans[0].assignments.len(), 1);
}

#[test]
fn only_cast_creature_spells_rejects_instant() {
    let mut pool = ManaPool::new();
    pool.add(ManaUnit {
        color: ManaColor::Red,
        source: 0,
        restrictions: ManaRestrictions {
            spend_only_on: Some(SpendRestriction::OnlyCastCreatureSpells),
            is_snow: false,
        },
    });
    assert!(solve("{R}", &pool, &instant_spell_ctx()).is_empty());
    let ctx = SpendContext::for_spell(TypeLine::CREATURE.into(), ColorSet::red());
    assert_eq!(solve("{R}", &pool, &ctx).len(), 1);
}

#[test]
fn only_activate_abilities_rejects_spells() {
    let mut pool = ManaPool::new();
    pool.add(ManaUnit {
        color: ManaColor::Red,
        source: 0,
        restrictions: ManaRestrictions {
            spend_only_on: Some(SpendRestriction::OnlyActivateAbilities),
            is_snow: false,
        },
    });
    assert!(solve("{R}", &pool, &creature_spell_ctx()).is_empty());
    assert_eq!(solve("{R}", &pool, &SpendContext::for_activated_ability()).len(), 1);
}

#[test]
fn three_mountains_paying_r_is_one_plan() {
    let pool = pool_of(&[ManaColor::Red, ManaColor::Red, ManaColor::Red]);
    let plans = solve("{W/R}", &pool, &nonspell_ctx());
    assert_eq!(plans.len(), 1);
}

#[test]
fn hybrid_dedup_does_not_collapse_distinct_colors() {
    let pool = pool_of(&[ManaColor::White, ManaColor::Blue]);
    let plans = solve("{W/U}", &pool, &nonspell_ctx());
    assert_eq!(plans.len(), 2);
}

#[test]
fn monohybrid_dedup_collapses_same_color_pairs() {
    let pool = pool_of(&[ManaColor::White, ManaColor::White, ManaColor::White]);
    let plans = solve("{2/W}", &pool, &nonspell_ctx());
    assert_eq!(plans.len(), 2);
}

#[test]
fn can_afford_shortcuts_happy_path() {
    let pool = pool_of(&[ManaColor::Red, ManaColor::Red]);
    assert!(can_afford(&parse("{1}{R}"), &pool, None, &nonspell_ctx()));
    assert!(!can_afford(&parse("{R}{R}{R}"), &pool, None, &nonspell_ctx()));
}

#[test]
fn saw_it_coming_mana_cost_pays_with_three_islands() {
    let pool = pool_of(&[ManaColor::Blue, ManaColor::Blue, ManaColor::Blue, ManaColor::Blue]);
    let plans = solve("{3}{U}", &pool, &instant_spell_ctx());
    assert_eq!(plans.len(), 1);
    assert_eq!(plans[0].assignments.len(), 4);
}

#[test]
fn reaper_king_ish_cost_solves() {
    let mut pool = ManaPool::new();
    for c in [ManaColor::White, ManaColor::Blue, ManaColor::Black, ManaColor::Red, ManaColor::Green] {
        pool.add(ManaUnit::plain(c, 0));
    }
    for _ in 0..5 {
        pool.add(ManaUnit::plain(ManaColor::Colorless, 0));
    }
    let plans = solve("{2/W}{2/U}{2/B}{2/R}{2/G}", &pool, &nonspell_ctx());
    assert!(!plans.is_empty(), "should find at least one plan");
}

#[test]
fn generic_pip_is_paid_with_colorless_mana_too() {
    let pool = pool_of(&[ManaColor::Colorless, ManaColor::Colorless]);
    assert!(can_afford(&parse("{2}"), &pool, None, &nonspell_ctx()));
    assert!(!can_afford(&parse("{1}{W}"), &pool, None, &nonspell_ctx()));
}

#[test]
fn display_then_parse_gives_back_the_cost() {
    let c = ManaCost {
        components: vec![
            ManaCostComponent::Generic(4_000_000_000),
            ManaCostComponent::PhyrexianHybrid(Color::Green, Color::Blue),
            ManaCostComponent::MonoHybrid(Color::Black),
            ManaCostComponent::Hybrid(Color::Red, Color::White),
            ManaCostComponent::X,
            ManaCostComponent::Snow,
            ManaCostComponent::Colorless,
        ],
    };
    let text = c.to_string();
    assert_eq!(text, "{4000000000}{G/U/P}{2/B}{R/W}{X}{S}{C}");
    assert_eq!(ManaCost::parse(&text), Ok(c));
}

fn snow_unit(color: ManaColor) -> ManaUnit {
    ManaUnit { color, source: 0, restrictions: ManaRestrictions { spend_only_on: None, is_snow: true } }
}

#[test]
fn snow_cost_finds_plan_a_greedy_pass_would_miss() {
    // {S}{R} from a snow Red and a snow Green: the Red must pay {R} and the
    // Green {S}; taking the Red for {S} first leaves nothing for {R}.
    let mut pool = ManaPool::new();
    pool.add(snow_unit(ManaColor::Red));
    pool.add(snow_unit(ManaColor::Green));
    let cost = parse("{S}{R}");
    let ctx = SpendContext::unrestricted();
    assert!(can_afford(&cost, &pool, None, &ctx));
    let plans = enumerate_payment_plans(&cost, &pool, None, &ctx);
    assert_eq!(plans.len(), 1);
    assert_eq!(plans[0].assignments.len(), 2);
}

#[test]
fn simple_snow_cost_gives_one_plan() {
    // {S} from two snow units of different colors: two ways, one plan.
    let mut pool = ManaPool::new();
    pool.add(snow_unit(ManaColor::Red));
    pool.add(snow_unit(ManaColor::Green));
    let plans = enumerate_payment_plans(&parse("{S}"), &pool, None, &SpendContext::unrestricted());
    assert_eq!(plans.len(), 1);
    // No snow unit: no plan.
    let mut plain = ManaPool::new();
    plain.add(ManaUnit::plain(ManaColor::Red, 0));
    assert!(!can_afford(&parse("{S}{R}"), &plain, None, &SpendContext::unrestricted()));
}
