//! A simplified, simulatable Flesh and Blood rules engine for the Aurora
//! (Runeblade / Lightning) card pool: the card model and its TSV records, the
//! card database, decks, a deterministic generator, the rules engine with its
//! agents, batches of games, and deck-building helpers.

pub mod agents;
pub mod climb;
pub mod card;
pub mod db;
pub mod deck;
pub mod game;
pub mod optimize;
pub mod rng;
pub mod series;
pub mod simulate;
pub mod text;
pub mod types;

pub use card::{Card, Keywords};
pub use db::CardDb;
pub use deck::Deck;
pub use game::{Action, Agent, Game, Outcome, PlayerState};
pub use rng::Rng;
pub use types::{CardType, Class, EquipSlot, Pitch, Talent};
