//! Participants of a match, and the engine's move choice.

use vstd::prelude::*;

use crate::game::Game;
use crate::mcts::Mcts;
use crate::state::State;
use crate::tree::Tree;

verus! {

/// A participant of an interactive match: a human at the console —
/// whose input is handled outside this library — or the engine,
/// searching under a time budget in milliseconds.
#[derive(Clone, Copy, Debug)]
pub enum Player {
    Human,
    Ai(u128),
}

/// The engine's move for a running four-in-a-row position: one whole
/// search under the given budget. The chosen column is always open in
/// `game`, and it is the last action of the first most-visited root
/// child of a well-formed search tree built over `game`.
pub fn ai_move(game: &Game, search_time: u128) -> (col: usize)
    requires
        !game.spec_over(),
    ensures
        col < 7,
        !game.spec_filled_col(col as int),
        exists|t: Tree<Game>|
            #![auto]
            {
                &&& t.wf()
                &&& t.spec_len() >= 2
                &&& t.node(0).state == *game
                &&& exists|c: usize|
                    #![auto]
                    0 < c < t.spec_len() && t.is_first_most_visited(0, c) && t.node(
                        c as int).state.spec_last_action() == Some(col)
            },
{
    let mut searcher: Mcts<Game> = Default::default();
    let root = game.duplicate();
    let col = searcher.search(search_time, root);
    proof {
        let t = searcher.tree;
        assert(t.wf() && t.spec_len() >= 2 && t.node(0).state == *game
            && (exists|c: usize|
            #![auto]
            0 < c < t.spec_len() && t.is_first_most_visited(0, c) && t.node(
                c as int).state.spec_last_action() == Some(col)));
    }
    col
}

} // verus!
