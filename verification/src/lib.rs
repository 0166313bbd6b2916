//! Exact evaluation of dice-game strategies.
//!
//! A player repeatedly picks, from the current score alone, how many
//! six-sided dice to roll. Rolling exactly one 1 forfeits the round's gain;
//! two or more 1s reset the score to zero; otherwise the faces sum into the
//! score, capped at an absorbing winning bucket. The engine propagates the
//! full probability distribution over scores round by round, in exact
//! arbitrary-precision arithmetic, until the cumulative win probability
//! crosses a configured bound, and reports the round count and the achieved
//! probability as an exact fraction.

pub mod bignat;
pub mod bridge;
pub mod classify;
pub mod counting;
pub mod engine;
pub mod enumerate;
pub mod propagate;
pub mod table;
