//! The capability set a game must expose to the search engine.
//!
//! A `State` is one complete position. The engine never inspects a
//! position itself; everything it needs is stated here, so any
//! two-player, perfect-information, turn-based game can drive the
//! engine by implementing this trait.

use vstd::prelude::*;

use crate::score::REWARD_UNIT;

verus! {

/// Number of plies since search start after which every game is forced
/// to end, so that random play cannot run forever.
pub const DEPTH_CAP: u64 = 30;

pub trait State: Sized {
    type Action;

    /// Whether the game is over when this position stands `depth` plies
    /// after the search started. The game's own rules may end it at any
    /// depth; the cap at `DEPTH_CAP` ends it unconditionally.
    spec fn spec_terminal(&self, depth: u64) -> bool;

    /// The action that produced this position from its parent, or
    /// `None` for a position nothing was applied to.
    spec fn spec_last_action(&self) -> Option<Self::Action>;

    /// The position reached by applying `action` to this one.
    spec fn spec_apply(&self, action: Self::Action) -> Self;

    /// Whether `action` is playable here. Everything
    /// `possible_actions` hands out is; the engine applies nothing
    /// else.
    spec fn spec_can_apply(&self, action: Self::Action) -> bool;

    /// The reward `reward` computes: what reaching this position is
    /// worth to the player who moved into `perspective`.
    spec fn spec_reward(&self, perspective: &Self) -> u64;

    /// A position that is over never becomes playable again at a
    /// greater depth.
    proof fn lemma_terminal_monotone(&self, d1: u64, d2: u64)
        requires
            self.spec_terminal(d1),
            d1 <= d2,
        ensures
            self.spec_terminal(d2),
    ;

    /// The depth cap forces termination.
    proof fn lemma_depth_cap(&self, depth: u64)
        requires
            depth >= DEPTH_CAP,
        ensures
            self.spec_terminal(depth),
    ;

    /// The legal actions of this position, in a pre-shuffled order.
    /// Only a position whose game is already over may have none.
    fn possible_actions(&self) -> (r: Vec<Self::Action>)
        ensures
            r@.len() == 0 ==> self.spec_terminal(0),
            forall|k: int|
                0 <= k < r@.len() ==> self.spec_can_apply(#[trigger] r@[k]),
    ;

    /// Applying an action builds a new, independent position; the
    /// receiver is never changed.
    fn apply_action(&self, action: Self::Action) -> (r: Self)
        requires
            self.spec_can_apply(action),
        ensures
            r == self.spec_apply(action),
            r.spec_last_action() == Some(action),
    ;

    fn last_action(&self) -> (r: Option<Self::Action>)
        ensures
            r == self.spec_last_action(),
    ;

    fn is_terminal(&self, depth: u64) -> (r: bool)
        ensures
            r == self.spec_terminal(depth),
    ;

    /// The reward in milli-units for reaching this position, relative
    /// to the player who moved into `perspective`: `REWARD_UNIT` if
    /// that player wins here, `0` if the opponent does, in between for
    /// anything else (a draw is `REWARD_UNIT / 2`). The game defines
    /// the exact mapping as `spec_reward`.
    fn reward(&self, perspective: &Self) -> (r: u64)
        ensures
            r == self.spec_reward(perspective),
            r <= REWARD_UNIT,
    ;

    /// An independent copy of this position.
    fn duplicate(&self) -> (r: Self)
        ensures
            r == *self,
    ;
}

} // verus!
