//! Monte Carlo Tree Search with UCT selection for two-player,
//! perfect-information turn-based games.
//!
//! The engine — the statistics tree in [`tree`] and [`node`], and the
//! four-phase select / expand / simulate / backpropagate loop in
//! [`mcts`] — is generic over the game through the [`state::State`]
//! contract; the four-in-a-row board in [`game`] is the bundled
//! instantiation. All rewards and scores are integer milli-units
//! ([`score`]), so the statistics and the selection formula are stated
//! and proved exactly.

mod clock;
pub mod game;
pub mod mcts;
pub mod node;
pub mod player;
mod rng;
pub mod score;
pub mod state;
pub mod tree;
