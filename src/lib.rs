//! Rules and state engine of a multiplayer casino card game: the card model,
//! a registry of card collections addressed by handles, the dealing and
//! round state machine, and the click-sequence resolver.

pub mod card;
pub mod game;
pub mod pool;
pub mod registry;
