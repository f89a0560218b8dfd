//! Priority (CR 117): who may act, passing, and APNAP order.
//!
//! The player with priority either acts (and keeps priority, CR 117.3d)
//! or passes it to the next player in turn order. When every player has
//! passed in succession the top of the stack resolves or the step ends
//! (CR 117.4). Untap and cleanup steps grant no priority (CR 502.4,
//! 514.3).

use vstd::prelude::*;
use crate::turn::Step;
use crate::types::PlayerId;

verus! {

/// A special-action window that suspends normal priority.
#[derive(Clone, Copy, Debug, PartialEq, Eq, Structural, Hash)]
pub enum SpecialAction {
    DiscardToHandSize,
    MulliganDecision,
    LondonMulliganBottomCards(u32),
    ChooseFirstPlayer,
    Sideboarding,
}

/// Who has priority and how many players have passed in a row.
#[derive(Clone, Copy, Debug, PartialEq, Eq, Structural)]
pub struct PriorityState {
    /// Player who currently has priority.
    pub player: PlayerId,
    /// Passes since the last non-pass action.
    pub consecutive_passes: u32,
    /// Active special-action window, if any.
    pub special_action: Option<SpecialAction>,
}

/// What happens after a pass.
#[derive(Clone, Copy, Debug, PartialEq, Eq, Structural)]
pub enum PriorityOutcome {
    /// Priority moved to this player.
    PassedTo(PlayerId),
    /// Every player passed in succession (CR 117.4).
    EveryonePassed,
}

/// The player after `current` in turn order.
pub open spec fn spec_next_in_turn_order(current: PlayerId, num_players: u8) -> PlayerId {
    ((current + 1) % (num_players as int)) as u8
}

/// `n` saturating-added to the pass counter.
pub open spec fn sat_inc(n: u32) -> u32 {
    if n == u32::MAX { u32::MAX } else { (n + 1) as u32 }
}

/// State and outcome of one pass.
pub open spec fn spec_pass(s: PriorityState, num_players: u8) -> (PriorityState, PriorityOutcome) {
    let passes = sat_inc(s.consecutive_passes);
    if passes >= num_players {
        (PriorityState { consecutive_passes: passes, ..s }, PriorityOutcome::EveryonePassed)
    } else {
        let next = spec_next_in_turn_order(s.player, num_players);
        (PriorityState { player: next, consecutive_passes: passes, ..s }, PriorityOutcome::PassedTo(next))
    }
}

impl PriorityState {
    /// Grant priority to `player` with a fresh pass counter.
    pub fn give_to(&mut self, player: PlayerId)
        ensures
            *final(self) == (PriorityState { player, consecutive_passes: 0, ..*old(self) }),
    {
        self.player = player;
        self.consecutive_passes = 0;
    }

    /// Record a pass by the priority holder: priority moves on, or every
    /// player has now passed in succession (the holder stays the last
    /// passer).
    pub fn pass(&mut self, num_players: u8) -> (out: PriorityOutcome)
        requires
            num_players > 0,
        ensures
            (*final(self), out) == spec_pass(*old(self), num_players),
    {
        self.consecutive_passes = self.consecutive_passes.saturating_add(1);
        if self.consecutive_passes >= num_players as u32 {
            PriorityOutcome::EveryonePassed
        } else {
            let next = next_in_turn_order(self.player, num_players);
            self.player = next;
            PriorityOutcome::PassedTo(next)
        }
    }

    /// The holder acted (CR 117.3d): it keeps priority and the run of
    /// passes is broken.
    pub fn record_action(&mut self)
        ensures
            *final(self) == (PriorityState { consecutive_passes: 0, ..*old(self) }),
    {
        self.consecutive_passes = 0;
    }

    /// Has every player passed in succession?
    pub fn everyone_passed(&self, num_players: u8) -> (b: bool)
        ensures
            b == (self.consecutive_passes >= num_players),
    {
        self.consecutive_passes >= num_players as u32
    }

    /// Open a special-action window for `player`.
    pub fn begin_special_action(&mut self, action: SpecialAction, player: PlayerId)
        ensures
            *final(self) == (PriorityState { player, consecutive_passes: 0, special_action: Some(action) }),
    {
        self.special_action = Some(action);
        self.player = player;
        self.consecutive_passes = 0;
    }

    /// Close the special-action window; the holder is unchanged.
    pub fn end_special_action(&mut self)
        ensures
            *final(self) == (PriorityState { special_action: None, ..*old(self) }),
    {
        self.special_action = None;
    }

    pub fn in_special_action(&self) -> (b: bool)
        ensures
            b == self.special_action is Some,
    {
        self.special_action.is_some()
    }
}

/// Next player in turn order (CR 101.4).
pub fn next_in_turn_order(current: PlayerId, num_players: u8) -> (p: PlayerId)
    requires
        num_players > 0,
    ensures
        p == spec_next_in_turn_order(current, num_players),
        p < num_players,
{
    ((current as u16 + 1) % num_players as u16) as u8
}

/// Seat `i` of the APNAP order starting at `active`.
pub open spec fn spec_apnap(active: PlayerId, num_players: u8) -> Seq<PlayerId> {
    Seq::new(num_players as nat, |i: int| ((active + i) % (num_players as int)) as u8)
}

/// The active player first, then each other player in turn order
/// (CR 101.4).
pub fn apnap_order(active_player: PlayerId, num_players: u8) -> (it: std::vec::IntoIter<PlayerId>)
    requires
        num_players > 0,
    ensures
        vstd::std_specs::iter::IteratorSpec::remaining(&it) == spec_apnap(active_player, num_players),
{
    let mut v: Vec<PlayerId> = Vec::new();
    let mut i: u8 = 0;
    while i < num_players
        invariant
            i <= num_players,
            num_players > 0,
            v@ == spec_apnap(active_player, num_players).take(i as int),
        decreases num_players - i,
    {
        let p = ((active_player as u16 + i as u16) % num_players as u16) as u8;
        v.push(p);
        proof {
            assert(spec_apnap(active_player, num_players).take(i + 1) =~= spec_apnap(
                active_player,
                num_players,
            ).take(i as int).push(p));
        }
        i = i + 1;
    }
    proof {
        assert(spec_apnap(active_player, num_players).take(i as int) =~= spec_apnap(active_player, num_players));
    }
    let it = v.into_iter();
    proof {
        vstd::std_specs::vec::axiom_spec_into_iter(v);
    }
    it
}

/// Does `step` grant priority by default? Not untap (CR 502.4) nor
/// cleanup (CR 514.3).
pub fn receives_priority_at(step: Step) -> (b: bool)
    ensures
        b == !(step == Step::Untap || step == Step::Cleanup),
{
    match step {
        Step::Untap => false,
        Step::Cleanup => false,
        _ => true,
    }
}

/// APNAP order visits every player exactly once: it has one entry per
/// player, each a valid seat, no seat twice, and every seat appears.
pub proof fn law_apnap_is_permutation(active: PlayerId, num_players: u8)
    requires
        num_players > 0,
    ensures
        spec_apnap(active, num_players).len() == num_players,
        spec_apnap(active, num_players).no_duplicates(),
        forall|p: PlayerId| p < num_players ==> #[trigger] spec_apnap(active, num_players).contains(p),
        forall|i: int| 0 <= i < num_players ==> #[trigger] spec_apnap(active, num_players)[i] < num_players,
{
    let s = spec_apnap(active, num_players);
    let n = num_players as int;
    let a = active as int;
    assert forall|i: int| 0 <= i < n implies #[trigger] s[i] < num_players by {
        assert(0 <= (a + i) % n < n) by (nonlinear_arith)
            requires
                n > 0,
                a + i >= 0,
        ;
    }
    assert forall|i: int, j: int| 0 <= i < s.len() && 0 <= j < s.len() && i != j implies s[i] != s[j] by {
        lemma_mod_distinct(a, i, j, n);
        assert(0 <= (a + i) % n < n) by (nonlinear_arith)
            requires
                n > 0,
                a + i >= 0,
        ;
        assert(0 <= (a + j) % n < n) by (nonlinear_arith)
            requires
                n > 0,
                a + j >= 0,
        ;
    }
    assert forall|p: PlayerId| p < num_players implies #[trigger] s.contains(p) by {
        let i = ((p as int - a) % n + n) % n;
        lemma_mod_hit(a, p as int, n);
        assert(s[i] == p);
    }
}

/// State after `k` passes in a row starting from `s`.
pub open spec fn spec_after_passes(s: PriorityState, num_players: u8, k: nat) -> PriorityState
    decreases k,
{
    if k == 0 {
        s
    } else {
        spec_pass(spec_after_passes(s, num_players, (k - 1) as nat), num_players).0
    }
}

/// Law (CR 117.4): from a fresh pass counter, the first `num_players - 1`
/// passes hand priority around the table in turn order and the
/// `num_players`-th pass reports that everyone passed.
pub proof fn law_round_of_passes(s: PriorityState, num_players: u8, k: nat)
    requires
        s.consecutive_passes == 0,
        s.player < num_players,
        1 <= k <= num_players,
    ensures
        spec_after_passes(s, num_players, k).consecutive_passes == k,
        k < num_players ==> spec_pass(spec_after_passes(s, num_players, (k - 1) as nat), num_players).1
            == PriorityOutcome::PassedTo(((s.player + k) % (num_players as int)) as u8),
        k < num_players ==> spec_after_passes(s, num_players, k).player == (s.player + k) % (num_players as int),
        k == num_players ==> spec_pass(spec_after_passes(s, num_players, (k - 1) as nat), num_players).1
            == PriorityOutcome::EveryonePassed,
    decreases k,
{
    let n = num_players as int;
    let prev = spec_after_passes(s, num_players, (k - 1) as nat);
    if k == 1 {
        assert(prev == s);
        vstd::arithmetic::div_mod::lemma_small_mod(s.player as nat, n as nat);
    } else {
        law_round_of_passes(s, num_players, (k - 1) as nat);
        assert(prev.player == (s.player + (k - 1)) % n);
        vstd::arithmetic::div_mod::lemma_add_mod_noop(s.player + (k - 1), 1, n);
        vstd::arithmetic::div_mod::lemma_small_mod(1, n as nat);
        vstd::arithmetic::div_mod::lemma_mod_twice(s.player + (k - 1), n);
        if n > 1 {
            assert(((s.player + (k - 1)) % n + 1) % n == (s.player + k) % n) by {
                vstd::arithmetic::div_mod::lemma_add_mod_noop(s.player + (k - 1), 1, n);
            }
        }
    }
}

proof fn lemma_mod_distinct(a: int, i: int, j: int, n: int)
    requires
        n > 0,
        a >= 0,
        0 <= i < n,
        0 <= j < n,
        i != j,
    ensures
        (a + i) % n != (a + j) % n,
{
    vstd::arithmetic::div_mod::lemma_fundamental_div_mod(a + i, n);
    vstd::arithmetic::div_mod::lemma_fundamental_div_mod(a + j, n);
    if (a + i) % n == (a + j) % n {
        let qi = (a + i) / n;
        let qj = (a + j) / n;
        assert(n * qi - n * qj == i - j);
        assert(n * (qi - qj) == i - j) by (nonlinear_arith)
            requires
                n * qi - n * qj == i - j,
        ;
        if qi - qj >= 1 {
            assert(n * (qi - qj) >= n) by (nonlinear_arith)
                requires
                    qi - qj >= 1,
                    n > 0,
            ;
        } else if qi - qj <= -1 {
            assert(n * (qi - qj) <= -n) by (nonlinear_arith)
                requires
                    qi - qj <= -1,
                    n > 0,
            ;
        }
    }
}

proof fn lemma_mod_hit(a: int, p: int, n: int)
    requires
        n > 0,
        a >= 0,
        0 <= p < n,
    ensures
        0 <= ((p - a) % n + n) % n < n,
        (a + ((p - a) % n + n) % n) % n == p,
{
    let k = ((p - a) % n + n) % n;
    vstd::arithmetic::div_mod::lemma_mod_bound(p - a, n);
    vstd::arithmetic::div_mod::lemma_mod_bound((p - a) % n + n, n);
    vstd::arithmetic::div_mod::lemma_add_mod_noop((p - a) % n, n, n);
    vstd::arithmetic::div_mod::lemma_mod_self_0(n);
    vstd::arithmetic::div_mod::lemma_mod_twice(p - a, n);
    // k ≡ p - a (mod n)
    assert(k == ((p - a) % n) % n);
    vstd::arithmetic::div_mod::lemma_add_mod_noop(a, k, n);
    vstd::arithmetic::div_mod::lemma_add_mod_noop(a, p - a, n);
    vstd::arithmetic::div_mod::lemma_mod_twice(p - a, n);
    vstd::arithmetic::div_mod::lemma_small_mod(p as nat, n as nat);
}

} // verus!
