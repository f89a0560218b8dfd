//! A game transcript: the starting decks, the seed and every decision
//! taken, in order, with the result once the game has ended.

use vstd::prelude::*;
use crate::legal_actions::Action;
use crate::state::GameResult;
use crate::types::CardId;

verus! {

/// A complete game transcript.
#[derive(Clone, Debug)]
pub struct GameRecord {
    /// Each player's starting deck.
    pub decks: Vec<Vec<CardId>>,
    /// The seed the game was started with.
    pub seed: u64,
    /// The action taken at each successive decision, in order.
    pub actions: Vec<Action>,
    /// The result, once the recorded game has ended.
    pub result: Option<GameResult>,
}

impl GameRecord {
    /// An empty record for a game about to be played.
    pub fn new(decks: Vec<Vec<CardId>>, seed: u64) -> (r: GameRecord)
        ensures
            r.decks@ == decks@,
            r.seed == seed,
            r.actions@.len() == 0,
            r.result is None,
    {
        GameRecord { decks, seed, actions: Vec::new(), result: None }
    }

    /// Number of recorded decisions.
    pub fn len(&self) -> (n: usize)
        ensures
            n == self.actions@.len(),
    {
        self.actions.len()
    }

    /// No decision is recorded yet.
    pub fn is_empty(&self) -> (b: bool)
        ensures
            b == (self.actions@.len() == 0),
    {
        self.actions.len() == 0
    }
}

} // verus!
