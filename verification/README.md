# arcana_core

The core of a Magic: The Gathering rules engine, written in Verus: each
public function carries a `requires` / `ensures` contract that the verifier
proves against its body.

## Layout

- `src/types.rs` — colors, type lines, counters, the string interner.
- `src/mana.rs` — mana costs (parsing and printing), the mana pool and the
  payment solver: a greedy solver for simple costs and a backtracking search,
  proved complete up to plan equivalence, for hybrid, monohybrid, Phyrexian
  and snow costs.
- `src/objects.rs`, `src/zones.rs`, `src/layers.rs` — game objects, their
  arena, zones and computed characteristics.
- `src/state.rs`, `src/events.rs`, `src/turn.rs`, `src/priority.rs` — game
  state, the event log, turn steps and priority passing.
- `src/replacement.rs` — the replacement-effect pipeline (damage, dying,
  counters, entering the battlefield).
- `src/sba.rs` — state-based actions.
- `src/targets.rs` — object filters and target requirements.
- `src/registry.rs`, `src/sample_cards.rs` — the card registry and a few
  sample card definitions.
- `src/script.rs` — queries card scripts ask of the game (counts, per-turn
  history, maxima).
- `src/render.rs` — text for events, objects and actions.
- `src/legal_actions.rs` — attack declarations, damage-assignment orders
  and the choices offered during special actions (mulligans, discarding to
  hand size, choosing the first player).
- `src/enumeration.rs` — combinatorial building blocks of legal-action
  enumeration: cost reductions (generic and convoke), mode subsets,
  combinations, capped permutations, subsets up to interchangeable items and
  combat damage distributions.
- `src/counting.rs`, `src/text.rs` — counting and text helpers.

`tests/` holds executable tests of the library.

## Checking

Verification runs Verus on `src/lib.rs`; the tests build against the
compiled library.
