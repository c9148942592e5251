//! Game logic for coinche, the French trick-taking card game played by two
//! teams of two.
//!
//! - `playing`: cards, hands, decks and the rules of the playing phase.
//! - `bidding`: the rules of the bidding phase.
//! - `party`: the state machine of a whole round, bidding then playing.
//! - `server_logic`: the state that the server keeps between two moves.
//! - `game_logic`: the first set of card rules, where a rank is a plain number.
//! - `rng`: the source of randomness used to deal the cards.

pub mod rng;
pub mod playing;
pub mod game_logic;
pub mod bidding;
pub mod party;
pub mod server_logic;
