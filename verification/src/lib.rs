//! Matchmaking admission: lobbies of players wait in a queue, and on demand the
//! queue hands out teams whose player counts add up exactly to the sizes asked for.
//!
//! `rating`, `roles`, `player` and `lobby` hold the data, `queue` the queue as
//! contracts see it and what holds of it, `casual_game` the queue itself,
//! `partition` what the search for teams finds and `partition_lemmas` why.

pub mod casual_game;
pub mod game;
pub mod lobby;
pub mod one_two_two_game;
pub mod partition;
pub mod partition_lemmas;
pub mod player;
pub mod prelude;
pub mod queue;
pub mod rating;
pub mod roles;
pub mod tree;
