//! The four-phase search loop: select, expand, simulate,
//! backpropagate, repeated under a wall-clock budget.

use vstd::prelude::*;

use crate::clock;
use crate::node::MAX_SIMS;
use crate::score::REWARD_UNIT;
use crate::state::{State, DEPTH_CAP};
use crate::tree::Tree;

verus! {

/// Iterations between two looks at the clock; timing is amortized over
/// this stride, so a search may overshoot its budget by up to one
/// stride's worth of work.
pub const TIME_CHECK_STRIDE: u64 = 2048;

/// Defensive ceiling on the iterations of one search, far below the
/// per-node visit ceiling; a time budget is expected to stop the loop
/// long before.
pub const MAX_ITERATIONS: u64 = 0x4000_0000;

/// A reward as seen `flips` plies up the tree: each step toward the
/// root hands the score to the opponent, `reward` becomes
/// `REWARD_UNIT - reward`.
pub open spec fn alt_reward(reward: u64, flips: nat) -> int {
    if flips % 2 == 0 {
        reward as int
    } else {
        REWARD_UNIT - reward
    }
}

/// `to` lies `steps` playable actions away from `from`: every rollout
/// position is reachable in this sense.
pub open spec fn reachable_in<T: State>(from: T, to: T, steps: nat) -> bool
    decreases steps,
{
    if steps == 0 {
        to == from
    } else {
        exists|mid: T, a: T::Action|
            {
                &&& reachable_in(from, mid, (steps - 1) as nat)
                &&& mid.spec_can_apply(a)
                &&& to == #[trigger] mid.spec_apply(a)
            }
    }
}

/// One more playable action extends reachability by one step.
pub proof fn lemma_reachable_extend<T: State>(from: T, mid: T, a: T::Action, steps: nat)
    requires
        reachable_in(from, mid, steps),
        mid.spec_can_apply(a),
    ensures
        reachable_in(from, mid.spec_apply(a), steps + 1),
{
    assert(reachable_in(from, mid, ((steps + 1) - 1) as nat));
}

pub struct Mcts<T: State> {
    pub tree: Tree<T>,
}

impl<T: State> Mcts<T> {
    /// What holds of the tree between two search iterations.
    pub open spec fn search_inv(&self, iters: u64) -> bool {
        &&& self.tree.wf()
        &&& self.tree.progress_wf()
        &&& self.tree.visits_wf()
        &&& forall|i: int|
            0 <= i < self.tree.spec_len() ==> (#[trigger] self.tree.node(i)).num_sims
                <= iters
        &&& self.tree.spec_len() <= iters + 1
    }

    /// Simulation phase: from the position of `node_id`, play out by
    /// always taking the last entry of the pre-shuffled action list
    /// until the game (or the depth cap) ends it, and score the final
    /// position from the perspective of where the rollout began — not
    /// the search root, whose perspective backpropagation re-derives
    /// by alternation. Whatever the action order held, the result is
    /// the game's own reward of a position reached from the node's by
    /// playable actions and finished at the depth it stands at.
    pub fn simulate(&self, node_id: usize) -> (r: u64)
        requires
            self.tree.wf(),
            node_id < self.tree.spec_len(),
        ensures
            r <= REWARD_UNIT,
            exists|end: T, steps: nat|
                #![auto]
                {
                    &&& reachable_in(self.tree.node(node_id as int).state, end, steps)
                    &&& self.tree.node(node_id as int).depth + steps <= DEPTH_CAP
                    &&& end.spec_terminal(
                        (self.tree.node(node_id as int).depth + steps) as u64)
                    &&& r == end.spec_reward(&self.tree.node(node_id as int).state)
                },
    {
        let mut state = self.tree.get_state(node_id);
        let d0 = self.tree.nodes[node_id].depth;
        let ghost start = self.tree.node(node_id as int).state;
        let mut depth: u64 = d0;
        while !state.is_terminal(depth)
            invariant
                d0 <= depth <= DEPTH_CAP,
                start == self.tree.node(node_id as int).state,
                node_id < self.tree.spec_len(),
                d0 == self.tree.node(node_id as int).depth,
                reachable_in(start, state, (depth - d0) as nat),
            decreases DEPTH_CAP - depth,
        {
            proof {
                if depth >= DEPTH_CAP {
                    state.lemma_depth_cap(depth);
                }
            }
            let mut acts = state.possible_actions();
            proof {
                if acts@.len() == 0 {
                    state.lemma_terminal_monotone(0, depth);
                }
            }
            let a = acts.pop().unwrap();
            proof {
                lemma_reachable_extend(start, state, a, (depth - d0) as nat);
            }
            state = state.apply_action(a);
            depth = depth + 1;
        }
        let r = state.reward(self.tree.get_state_ref(node_id));
        proof {
            let steps: nat = (depth - d0) as nat;
            assert(reachable_in(start, state, steps)
                && self.tree.node(node_id as int).depth + steps <= DEPTH_CAP
                && state.spec_terminal((self.tree.node(node_id as int).depth + steps) as u64)
                && r == state.spec_reward(&self.tree.node(node_id as int).state));
        }
        r
    }

    /// Backpropagation phase: walk from `node_id` up to the root,
    /// giving every node on the way one more visit; the reward flips to
    /// the opponent's perspective at each step. Nothing else changes:
    /// every node off that path keeps its statistics, and the whole
    /// tree keeps its shape.
    #[verifier::rlimit(60)]
    pub fn backpropagate(&mut self, node_id: usize, reward: u64)
        requires
            old(self).tree.wf(),
            node_id < old(self).tree.spec_len(),
            reward <= REWARD_UNIT,
            forall|i: int|
                0 <= i < old(self).tree.spec_len()
                    ==> (#[trigger] old(self).tree.node(i)).num_sims < MAX_SIMS,
        ensures
            final(self).tree.wf(),
            Tree::same_shape(old(self).tree, final(self).tree),
            forall|i: int|
                0 <= i < old(self).tree.spec_len()
                    ==> (#[trigger] final(self).tree.node(i)).num_sims
                        == old(self).tree.node(i).num_sims + (if old(self).tree.on_path(
                        i, node_id as int) {
                        1int
                    } else {
                        0int
                    }),
            forall|i: int|
                0 <= i < old(self).tree.spec_len()
                    ==> (#[trigger] final(self).tree.node(i)).score == old(self).tree.node(
                    i).score + (if old(self).tree.on_path(i, node_id as int) {
                    alt_reward(
                        reward,
                        (old(self).tree.node(node_id as int).depth - old(self).tree.node(
                            i).depth) as nat,
                    )
                } else {
                    0int
                }),
    {
        let ghost pre = old(self).tree;
        let ghost dn = old(self).tree.node(node_id as int).depth;
        let mut cur: Option<usize> = Some(node_id);
        let mut r: u64 = reward;
        while cur.is_some()
            invariant
                self.tree.wf(),
                Tree::same_shape(pre, self.tree),
                node_id < pre.spec_len(),
                reward <= REWARD_UNIT,
                r <= REWARD_UNIT,
                dn == pre.node(node_id as int).depth,
                forall|i: int|
                    0 <= i < pre.spec_len() ==> (#[trigger] pre.node(i)).num_sims
                        < MAX_SIMS,
                match cur {
                    Some(c) => {
                        &&& c < pre.spec_len()
                        &&& pre.on_path(c as int, node_id as int)
                        &&& pre.node(c as int).depth <= dn
                        &&& r == alt_reward(reward, (dn - pre.node(c as int).depth) as nat)
                        &&& forall|i: int|
                            0 <= i < pre.spec_len()
                                ==> (#[trigger] self.tree.node(i)).num_sims == pre.node(
                                i).num_sims + (if pre.on_path(i, node_id as int)
                                    && !pre.on_path(i, c as int) {
                                    1int
                                } else {
                                    0int
                                })
                        &&& forall|i: int|
                            0 <= i < pre.spec_len()
                                ==> (#[trigger] self.tree.node(i)).score == pre.node(
                                i).score + (if pre.on_path(i, node_id as int)
                                    && !pre.on_path(i, c as int) {
                                    alt_reward(reward, (dn - pre.node(i).depth) as nat)
                                } else {
                                    0int
                                })
                    },
                    None => {
                        &&& forall|i: int|
                            0 <= i < pre.spec_len()
                                ==> (#[trigger] self.tree.node(i)).num_sims == pre.node(
                                i).num_sims + (if pre.on_path(i, node_id as int) {
                                    1int
                                } else {
                                    0int
                                })
                        &&& forall|i: int|
                            0 <= i < pre.spec_len()
                                ==> (#[trigger] self.tree.node(i)).score == pre.node(
                                i).score + (if pre.on_path(i, node_id as int) {
                                    alt_reward(reward, (dn - pre.node(i).depth) as nat)
                                } else {
                                    0int
                                })
                    },
                },
            decreases
                    (match cur {
                        Some(c) => c as int + 1,
                        None => 0int,
                    }),
        {
            let c = cur.unwrap();
            let ghost mid = self.tree;
            proof {
                assert(!pre.on_path(c as int, c as int) == false);
                assert(self.tree.node(c as int).num_sims == pre.node(c as int).num_sims);
            }
            self.tree.update_node(c, r);
            proof {
                Tree::lemma_same_shape_trans(pre, mid, self.tree);
            }
            let parent = self.tree.get_parent_id(c);
            proof {
                match pre.node(c as int).parent_id {
                    Some(p) => {
                        assert(0 <= p < c);
                        assert(pre.node(c as int).depth == pre.node(p as int).depth + 1);
                        assert(pre.on_path(p as int, node_id as int)) by {
                            pre.lemma_on_path_step(c as int, p as int, node_id as int);
                        }
                        assert forall|i: int| 0 <= i < pre.spec_len() implies
                            ((pre.on_path(i, node_id as int) && !pre.on_path(i, c as int))
                                || i == c) == (pre.on_path(i, node_id as int)
                                && !pre.on_path(i, p as int)) by {
                            if pre.on_path(i, p as int) {
                                pre.lemma_on_path_le(i, p as int);
                            }
                            if i == c {
                                assert(pre.on_path(c as int, node_id as int));
                                if pre.on_path(c as int, p as int) {
                                    pre.lemma_on_path_le(c as int, p as int);
                                }
                            }
                        }
                    },
                    None => {
                        assert forall|i: int| 0 <= i < pre.spec_len() implies
                            ((pre.on_path(i, node_id as int) && !pre.on_path(i, c as int))
                                || i == c) == pre.on_path(i, node_id as int) by {
                            if pre.on_path(i, c as int) {
                                assert(i == c || match pre.node(c as int).parent_id {
                                    Some(q) => 0 <= q < c && pre.on_path(i, q as int),
                                    None => false,
                                });
                            }
                        }
                    },
                }
            }
            cur = parent;
            r = REWARD_UNIT - r;
        }
    }

    /// One full search iteration from `root_id`: select a frontier
    /// node, expand one action of it (or keep a finished node),
    /// simulate from there, and backpropagate the outcome. Grows the
    /// tree by at most one node and every visit count by at most one;
    /// a root that still had untried actions gains a child.
    #[verifier::rlimit(100)]
    #[verifier::spinoff_prover]
    fn step(&mut self, root_id: usize, Ghost(iters): Ghost<u64>)
        requires
            old(self).search_inv(iters),
            root_id < old(self).tree.spec_len(),
            iters < MAX_ITERATIONS,
            MAX_ITERATIONS < MAX_SIMS,
            MAX_ITERATIONS + 2 < usize::MAX,
        ensures
            final(self).search_inv((iters + 1) as u64),
            final(self).tree.spec_len() >= old(self).tree.spec_len(),
            final(self).node_shape_kept(*old(self)),
            final(self).tree.node(root_id as int).num_sims
                >= old(self).tree.node(root_id as int).num_sims,
            old(self).tree.node(root_id as int).actions@.len() > 0
                ==> final(self).tree.node(root_id as int).child_ids@.len()
                    == old(self).tree.node(root_id as int).child_ids@.len() + 1,
            final(self).tree.node(root_id as int).child_ids@.len()
                >= old(self).tree.node(root_id as int).child_ids@.len(),
            final(self).tree.node(root_id as int).num_sims
                == old(self).tree.node(root_id as int).num_sims + 1,
    {
        let node_id = self.tree.select_child(root_id);
        let ghost pre = self.tree;
        let child_id = self.tree.expand(node_id);
        proof {
            if pre.node(node_id as int).actions@.len() > 0 {
                assert forall|i: int|
                    0 <= i < pre.spec_len() implies (#[trigger] self.tree.node(
                    i)).parent_id == pre.node(i).parent_id by {
                    if i != node_id {
                        assert(self.tree.node(i) == pre.node(i));
                    }
                }
                Tree::lemma_on_path_frame(pre, self.tree, root_id as int, node_id as int);
            }
            assert(self.tree.on_path(root_id as int, child_id as int));
        }
        let reward = self.simulate(child_id);
        let ghost mid = self.tree;
        proof {
            assert forall|i: int| 0 <= i < mid.spec_len() implies
                (#[trigger] mid.node(i)).num_sims <= iters by {
                if i < pre.spec_len() {
                    if i != node_id as int {
                        assert(mid.node(i) == pre.node(i));
                    }
                    assert(pre.node(i).num_sims <= iters);
                } else {
                    assert(mid.node(i).num_sims == 0);
                }
            }
        }
        self.backpropagate(child_id, reward);
        proof {
            Tree::lemma_progress_from_shape(mid, self.tree);
            assert forall|j: int|
                0 <= j < self.tree.spec_len() implies match (#[trigger] self.tree.node(
                j)).parent_id {
                Some(p) => 1 <= self.tree.node(j).num_sims && self.tree.node(j).num_sims
                    <= self.tree.node(p as int).num_sims,
                None => true,
            } by {
                assert(self.tree.node(j).parent_id == mid.node(j).parent_id);
                match mid.node(j).parent_id {
                    Some(p) => {
                        assert(0 <= p < j);
                        if mid.on_path(j, child_id as int) {
                            assert(mid.on_path(p as int, child_id as int)) by {
                                mid.lemma_on_path_step(j, p as int, child_id as int);
                            }
                        }
                        if j != child_id as int {
                            if j < pre.spec_len() && j != node_id as int {
                                assert(mid.node(j) == pre.node(j));
                            }
                            assert(mid.node(j).num_sims >= 1 && mid.node(j).num_sims
                                <= mid.node(p as int).num_sims);
                        } else {
                            assert(mid.on_path(p as int, child_id as int)) by {
                                mid.lemma_on_path_step(j, p as int, child_id as int);
                            }
                        }
                    },
                    None => {},
                }
            }
            assert forall|i: int|
                0 <= i < self.tree.spec_len() implies (#[trigger] self.tree.node(
                i)).num_sims <= iters + 1 by {
                assert(mid.node(i).num_sims <= iters);
            }
            assert(mid.on_path(root_id as int, child_id as int));
            assert(self.tree.node(root_id as int).num_sims
                == mid.node(root_id as int).num_sims + 1);
            assert forall|i: int| 0 <= i < pre.spec_len() implies {
                &&& (#[trigger] self.tree.node(i)).state == pre.node(i).state
                &&& self.tree.node(i).parent_id == pre.node(i).parent_id
                &&& self.tree.node(i).depth == pre.node(i).depth
            } by {
                if i != node_id as int {
                    assert(mid.node(i) == pre.node(i));
                }
                assert(self.tree.node(i).state == mid.node(i).state
                    && self.tree.node(i).parent_id == mid.node(i).parent_id
                    && self.tree.node(i).depth == mid.node(i).depth);
            }
        }
    }

    /// Search entry point: build a fresh tree from `root_state` and run
    /// four-phase iterations until the wall-clock budget of
    /// `search_time` milliseconds has elapsed, looking at the clock
    /// only every `TIME_CHECK_STRIDE` iterations. Even a zero budget
    /// performs at least one full iteration, so the returned action is
    /// always the last action of a real, visited child of the root —
    /// the first most-visited one. Every iteration backs its outcome
    /// up through the root, so the tree never holds more nodes than
    /// the root's visit count plus the root itself.
    pub fn search(&mut self, search_time: u128, root_state: T) -> (r: T::Action)
        requires
            old(self).tree.wf(),
            old(self).tree.spec_len() == 0,
            !root_state.spec_terminal(0),
        ensures
            final(self).tree.wf(),
            final(self).tree.spec_len() >= 2,
            final(self).tree.node(0).parent_id is None,
            final(self).tree.node(0).state == root_state,
            final(self).tree.node(0).num_sims >= 1,
            final(self).tree.visits_wf(),
            final(self).tree.spec_len() <= final(self).tree.node(0).num_sims + 1,
            root_state.spec_can_apply(r),
            exists|c: usize|
                #![auto]
                0 < c < final(self).tree.spec_len() && final(self).tree.is_first_most_visited(
                    0, c) && final(self).tree.node(c as int).state.spec_last_action()
                    == Some(r),
    {
        let started = clock::clock_now();
        let root_id = self.tree.add_state(root_state, None);
        let mut iterations: u64 = 0;
        loop
            invariant_except_break
                iterations < MAX_ITERATIONS,
            invariant
                self.search_inv(iterations),
                root_id == 0,
                self.tree.spec_len() >= 1,
                self.tree.node(0).parent_id is None,
                self.tree.node(0).state == root_state,
                self.tree.node(0).depth == 0,
                !root_state.spec_terminal(0),
                iterations == 0 ==> self.tree.node(0).actions@.len() > 0,
                iterations >= 1 ==> self.tree.node(0).child_ids@.len() >= 1,
                self.tree.node(0).num_sims == iterations,
            ensures
                self.tree.wf(),
                self.tree.visits_wf(),
                self.tree.node(0).parent_id is None,
                self.tree.node(0).state == root_state,
                self.tree.node(0).child_ids@.len() >= 1,
                self.tree.node(0).num_sims >= 1,
                self.tree.spec_len() >= 1,
                self.tree.spec_len() <= self.tree.node(0).num_sims + 1,
            decreases MAX_ITERATIONS - iterations,
        {
            self.step(root_id, Ghost(iterations));
            iterations = iterations + 1;
            if iterations >= MAX_ITERATIONS {
                break;
            }
            if iterations % TIME_CHECK_STRIDE == 0 && clock::elapsed_millis(&started)
                >= search_time {
                break;
            }
        }
        proof {
            assert(self.tree.node(0).child_ids@[0] > 0);
        }
        self.tree.best_action(root_id)
    }

    /// Search under an iteration budget instead of a clock: exactly
    /// `iterations` four-phase iterations from a fresh tree, each one
    /// backing its outcome up through the root — the root's visit
    /// count comes back equal to the budget. With a game whose action
    /// order is deterministic, the whole search is.
    pub fn search_iterations(&mut self, iterations: u64, root_state: T) -> (r: T::Action)
        requires
            old(self).tree.wf(),
            old(self).tree.spec_len() == 0,
            !root_state.spec_terminal(0),
            1 <= iterations <= MAX_ITERATIONS,
        ensures
            final(self).tree.wf(),
            final(self).tree.spec_len() >= 2,
            final(self).tree.node(0).parent_id is None,
            final(self).tree.node(0).state == root_state,
            final(self).tree.node(0).num_sims == iterations,
            final(self).tree.visits_wf(),
            final(self).tree.spec_len() <= iterations + 1,
            root_state.spec_can_apply(r),
            exists|c: usize|
                #![auto]
                0 < c < final(self).tree.spec_len() && final(self).tree.is_first_most_visited(
                    0, c) && final(self).tree.node(c as int).state.spec_last_action()
                    == Some(r),
    {
        let root_id = self.tree.add_state(root_state, None);
        let mut done: u64 = 0;
        while done < iterations
            invariant
                self.search_inv(done),
                root_id == 0,
                iterations <= MAX_ITERATIONS,
                done <= iterations,
                self.tree.spec_len() >= 1,
                self.tree.node(0).parent_id is None,
                self.tree.node(0).state == root_state,
                self.tree.node(0).depth == 0,
                !root_state.spec_terminal(0),
                done == 0 ==> self.tree.node(0).actions@.len() > 0,
                done >= 1 ==> self.tree.node(0).child_ids@.len() >= 1,
                self.tree.node(0).num_sims == done,
            decreases iterations - done,
        {
            self.step(root_id, Ghost(done));
            done = done + 1;
        }
        proof {
            assert(self.tree.node(0).child_ids@[0] > 0);
        }
        self.tree.best_action(root_id)
    }

    /// Every node of `other` still stands here, with the same position,
    /// links and depth (statistics and untried actions may differ, and
    /// the parent of a node expanded since may hold one more child).
    pub open spec fn node_shape_kept(&self, other: Self) -> bool {
        &&& self.tree.spec_len() >= other.tree.spec_len()
        &&& forall|i: int|
            0 <= i < other.tree.spec_len() ==> {
                &&& (#[trigger] self.tree.node(i)).state == other.tree.node(i).state
                &&& self.tree.node(i).parent_id == other.tree.node(i).parent_id
                &&& self.tree.node(i).depth == other.tree.node(i).depth
            }
    }
}

impl<T: State> Default for Mcts<T> {
    /// A fresh searcher around an empty tree.
    fn default() -> (r: Self)
        ensures
            r.tree.wf(),
            r.tree.spec_len() == 0,
    {
        Mcts { tree: Default::default() }
    }
}

} // verus!
