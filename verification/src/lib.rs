//! A Magic: The Gathering rules engine core: mana costs and payment,
//! game objects, priority, state-based actions, replacement effects,
//! script queries, the card registry, rendering of the table, events and
//! actions, legal-action enumeration (priority window, pending choices,
//! special actions, attacks, blocks, activations) and game records.

pub mod types;
pub mod mana;
pub mod objects;
pub mod text;
pub mod counting;
pub mod zones;
pub mod events;
pub mod layers;
pub mod turn;
pub mod priority;
pub mod targets;
pub mod state;
pub mod replacement;
pub mod sba;
pub mod registry;
pub mod sample_cards;
pub mod script;
pub mod render;
pub mod enumeration;
pub mod legal_actions;
pub mod record;
