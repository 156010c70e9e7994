//! Per-position record of the statistics tree.

use vstd::prelude::*;

use crate::score;
use crate::score::REWARD_UNIT;
use crate::state::State;

verus! {

/// Ceiling on per-node visit counts: one more update below this bound
/// can overflow neither the visit count nor the cumulative score.
pub const MAX_SIMS: u64 = 0x1_0000_0000_0000;

/// One node of the search tree: a position with its visit statistics,
/// links to parent and children, and the legal actions not yet
/// materialized as children.
pub struct Node<T: State> {
    pub state: T,
    pub id: usize,
    pub parent_id: Option<usize>,
    pub child_ids: Vec<usize>,
    /// Only ever shrinks, by one entry per expansion.
    pub actions: Vec<T::Action>,
    /// Plies between the search root and this node.
    pub depth: u64,
    pub num_sims: u64,
    pub score: u64,
}

impl<T: State> Node<T> {
    /// The statistics are coherent: at most one full reward per visit.
    pub open spec fn score_wf(&self) -> bool {
        self.score <= self.num_sims * REWARD_UNIT
    }

    /// A fresh, unvisited node. Its untried-action list is the
    /// position's own action list, already shuffled by the game; a
    /// position whose game is over gets none.
    pub fn new(state: T, id: usize, parent_id: Option<usize>, depth: u64) -> (r: Self)
        ensures
            r.state == state,
            r.id == id,
            r.parent_id == parent_id,
            r.depth == depth,
            r.child_ids@.len() == 0,
            r.num_sims == 0,
            r.score == 0,
            (r.actions@.len() == 0) <==> state.spec_terminal(depth),
            forall|k: int|
                0 <= k < r.actions@.len() ==> state.spec_can_apply(
                    #[trigger] r.actions@[k]),
            r.score_wf(),
    {
        let terminal = state.is_terminal(depth);
        let actions: Vec<T::Action> = if terminal {
            Vec::new()
        } else {
            state.possible_actions()
        };
        proof {
            if !terminal && actions@.len() == 0 {
                state.lemma_terminal_monotone(0, depth);
            }
        }
        Node {
            state,
            id,
            parent_id,
            child_ids: Vec::new(),
            actions,
            depth,
            num_sims: 0,
            score: 0,
        }
    }

    pub fn is_explored(&self) -> (r: bool)
        ensures
            r == (self.num_sims != 0),
    {
        self.num_sims != 0
    }

    pub fn num_sims(&self) -> (r: u64)
        ensures
            r == self.num_sims,
    {
        self.num_sims
    }

    /// Mean score in milli-units. Asking for it without a single visit
    /// is a broken invariant, so it is ruled out here rather than given
    /// a made-up value.
    pub fn mean_score(&self) -> (r: u64)
        requires
            self.num_sims > 0,
        ensures
            r == self.score as nat / self.num_sims as nat,
    {
        self.score / self.num_sims
    }

    /// UCT score in milli-units against a parent with `parent_sims`
    /// visits. Zero own visits are ruled out: the selection protocol
    /// never scores an unvisited child.
    pub fn uct_score(&self, parent_sims: u64) -> (r: u64)
        requires
            self.num_sims > 0,
            parent_sims > 0,
            self.score_wf(),
        ensures
            r == score::spec_uct(self.score as nat, self.num_sims as nat, parent_sims as nat),
    {
        score::uct_milli(self.score, self.num_sims, parent_sims)
    }

    /// One more visit with the given reward.
    pub fn update(&mut self, reward: u64)
        requires
            old(self).num_sims < MAX_SIMS,
            reward <= REWARD_UNIT,
            old(self).score_wf(),
        ensures
            final(self).num_sims == old(self).num_sims + 1,
            final(self).score == old(self).score + reward,
            final(self).state == old(self).state,
            final(self).id == old(self).id,
            final(self).parent_id == old(self).parent_id,
            final(self).child_ids == old(self).child_ids,
            final(self).actions == old(self).actions,
            final(self).depth == old(self).depth,
            final(self).score_wf(),
    {
        proof {
            assert(old(self).num_sims * REWARD_UNIT <= MAX_SIMS * REWARD_UNIT);
        }
        self.num_sims = self.num_sims + 1;
        self.score = self.score + reward;
    }
}

} // verus!
