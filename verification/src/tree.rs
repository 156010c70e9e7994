//! The arena that owns every node of one search invocation.
//!
//! Nodes are addressed by dense integer id — plain indices into one
//! vector, no owning pointers. Ids are handed out in creation order,
//! starting at 0, never reused; a child's id is always greater than its
//! parent's, which is what every descent in here terminates on.

use vstd::prelude::*;

use crate::node::{Node, MAX_SIMS};
use crate::rng;
use crate::score;
use crate::score::REWARD_UNIT;
use crate::state::{State, DEPTH_CAP};

verus! {

pub struct Tree<T: State> {
    pub nodes: Vec<Node<T>>,
    /// The next id to hand out; always the number of nodes.
    pub index: usize,
}

impl<T: State> Tree<T> {
    pub open spec fn spec_len(&self) -> nat {
        self.nodes@.len()
    }

    pub open spec fn node(&self, i: int) -> Node<T> {
        self.nodes@[i]
    }

    /// Structural well-formedness, held by every operation:
    /// ids are dense and in creation order, parent and child links
    /// mirror each other, depths count plies from the root, a finished
    /// position keeps no untried action, every untried action is
    /// playable in its node's position, and statistics stay coherent.
    pub open spec fn wf(&self) -> bool {
        &&& self.index == self.spec_len()
        &&& forall|i: int|
            0 <= i < self.spec_len() ==> (#[trigger] self.node(i)).id == i
        &&& forall|i: int|
            0 <= i < self.spec_len() ==> match (#[trigger] self.node(i)).parent_id {
                Some(p) => {
                    &&& 0 <= p < i
                    &&& self.node(i).depth == self.node(p as int).depth + 1
                    &&& self.node(p as int).child_ids@.contains(i as usize)
                    &&& match self.node(i).state.spec_last_action() {
                        Some(a) => self.node(p as int).state.spec_can_apply(a)
                            && self.node(i).state == self.node(p as int).state.spec_apply(a),
                        None => false,
                    }
                },
                None => self.node(i).depth == 0,
            }
        &&& forall|i: int|
            0 <= i < self.spec_len() ==> (#[trigger] self.node(i)).depth <= DEPTH_CAP
        &&& forall|i: int, k: int|
            0 <= i < self.spec_len() && 0 <= k < self.node(i).child_ids@.len()
                ==> i < #[trigger] self.node(i).child_ids@[k] < self.spec_len()
                    && self.node(self.node(i).child_ids@[k] as int).parent_id
                        == Some(i as usize)
        &&& forall|i: int, k1: int, k2: int|
            0 <= i < self.spec_len() && 0 <= k1 < k2 < self.node(i).child_ids@.len()
                ==> #[trigger] self.node(i).child_ids@[k1]
                    < #[trigger] self.node(i).child_ids@[k2]
        &&& forall|i: int|
            0 <= i < self.spec_len()
                ==> ((#[trigger] self.node(i)).state.spec_terminal(self.node(i).depth)
                    ==> self.node(i).actions@.len() == 0)
        &&& forall|i: int, k: int|
            0 <= i < self.spec_len() && 0 <= k < self.node(i).actions@.len()
                ==> self.node(i).state.spec_can_apply(#[trigger] self.node(i).actions@[k])
        &&& forall|i: int|
            0 <= i < self.spec_len() ==> (#[trigger] self.node(i)).score_wf()
    }

    /// A playable position always has work left: an untried action or a
    /// child. Newly created nodes satisfy it, expansion trades one
    /// action for one child, and selection leans on it to always find a
    /// child below a fully expanded playable node.
    pub open spec fn progress_wf(&self) -> bool {
        forall|i: int|
            0 <= i < self.spec_len()
                ==> (!(#[trigger] self.node(i)).state.spec_terminal(self.node(i).depth)
                    ==> self.node(i).actions@.len() + self.node(i).child_ids@.len() >= 1)
    }

    /// Visit-count sanity between search iterations: every non-root
    /// node has gone through at least one backpropagation, and a child
    /// never outcounts its parent. This is exactly what makes scoring
    /// a zero-visit child unreachable during selection.
    pub open spec fn visits_wf(&self) -> bool {
        forall|j: int|
            0 <= j < self.spec_len() ==> match (#[trigger] self.node(j)).parent_id {
                Some(p) => 1 <= self.node(j).num_sims
                    && self.node(j).num_sims <= self.node(p as int).num_sims,
                None => true,
            }
    }

    /// Visit count of the `k`-th child of node `p`.
    pub open spec fn child_sims(&self, p: int, k: int) -> u64 {
        self.node(self.node(p).child_ids@[k] as int).num_sims
    }

    /// UCT score of the `k`-th child of node `p`.
    pub open spec fn child_uct(&self, p: int, k: int) -> nat {
        let c = self.node(self.node(p).child_ids@[k] as int);
        score::spec_uct(c.score as nat, c.num_sims as nat, self.node(p).num_sims as nat)
    }

    /// `c` is the first child of `p` with the maximal visit count.
    pub open spec fn is_first_most_visited(&self, p: int, c: usize) -> bool {
        exists|kc: int|
            #![auto]
            {
                &&& 0 <= kc < self.node(p).child_ids@.len()
                &&& self.node(p).child_ids@[kc] == c
                &&& forall|k: int|
                    0 <= k < self.node(p).child_ids@.len()
                        ==> #[trigger] self.child_sims(p, k) <= self.child_sims(p, kc)
                &&& forall|k: int|
                    0 <= k < kc ==> #[trigger] self.child_sims(p, k) < self.child_sims(p, kc)
            }
    }

    /// `ids` is a descent chain: every step leaves a fully expanded,
    /// still-playable node for its first UCT-best child.
    pub open spec fn uct_chain(&self, ids: Seq<int>) -> bool
        decreases ids.len(),
    {
        ids.len() <= 1 || {
            let k = ids.len() - 2;
            &&& 0 <= ids[k] < self.spec_len()
            &&& 0 <= ids[k + 1] < self.spec_len()
            &&& self.node(ids[k]).actions@.len() == 0
            &&& !self.node(ids[k]).state.spec_terminal(self.node(ids[k]).depth)
            &&& self.is_first_uct_best(ids[k], ids[k + 1] as usize)
            &&& self.uct_chain(ids.drop_last())
        }
    }

    /// `c` is the first child of `p` with the maximal UCT score.
    pub open spec fn is_first_uct_best(&self, p: int, c: usize) -> bool {
        exists|kc: int|
            #![auto]
            {
                &&& 0 <= kc < self.node(p).child_ids@.len()
                &&& self.node(p).child_ids@[kc] == c
                &&& forall|k: int|
                    0 <= k < self.node(p).child_ids@.len()
                        ==> #[trigger] self.child_uct(p, k) <= self.child_uct(p, kc)
                &&& forall|k: int|
                    0 <= k < kc ==> #[trigger] self.child_uct(p, k) < self.child_uct(p, kc)
            }
    }

    /// Whether node `x` lies on the parent chain from `from` up to the
    /// root, both ends included.
    pub open spec fn on_path(&self, x: int, from: int) -> bool
        decreases from,
    {
        x == from || match self.node(from).parent_id {
            Some(p) => if 0 <= p < from {
                self.on_path(x, p as int)
            } else {
                false
            },
            None => false,
        }
    }

    /// Same length, and every node keeps its position, id, links,
    /// untried actions and depth — only statistics may differ.
    pub open spec fn same_shape(pre: Self, post: Self) -> bool {
        &&& post.spec_len() == pre.spec_len()
        &&& forall|i: int|
            0 <= i < pre.spec_len() ==> {
                &&& (#[trigger] post.node(i)).state == pre.node(i).state
                &&& post.node(i).id == pre.node(i).id
                &&& post.node(i).parent_id == pre.node(i).parent_id
                &&& post.node(i).child_ids == pre.node(i).child_ids
                &&& post.node(i).actions == pre.node(i).actions
                &&& post.node(i).depth == pre.node(i).depth
            }
    }

    pub proof fn lemma_same_shape_trans(a: Self, b: Self, c: Self)
        requires
            Self::same_shape(a, b),
            Self::same_shape(b, c),
        ensures
            Self::same_shape(a, c),
    {
        assert forall|i: int| 0 <= i < a.spec_len() implies {
            &&& (#[trigger] c.node(i)).state == a.node(i).state
            &&& c.node(i).id == a.node(i).id
            &&& c.node(i).parent_id == a.node(i).parent_id
            &&& c.node(i).child_ids == a.node(i).child_ids
            &&& c.node(i).actions == a.node(i).actions
            &&& c.node(i).depth == a.node(i).depth
        } by {
            assert((b.node(i)).state == a.node(i).state
                && b.node(i).id == a.node(i).id
                && b.node(i).parent_id == a.node(i).parent_id
                && b.node(i).child_ids == a.node(i).child_ids
                && b.node(i).actions == a.node(i).actions
                && b.node(i).depth == a.node(i).depth);
        }
    }

    /// Keeping the shape keeps `progress_wf`.
    pub proof fn lemma_progress_from_shape(pre: Self, post: Self)
        requires
            pre.progress_wf(),
            Self::same_shape(pre, post),
        ensures
            post.progress_wf(),
    {
        assert forall|i: int|
            0 <= i < post.spec_len() implies
            (!(#[trigger] post.node(i)).state.spec_terminal(post.node(i).depth)
                ==> post.node(i).actions@.len() + post.node(i).child_ids@.len() >= 1) by {
            assert(!pre.node(i).state.spec_terminal(pre.node(i).depth)
                ==> pre.node(i).actions@.len() + pre.node(i).child_ids@.len() >= 1);
        }
    }

    /// Ancestors never have a larger id than their descendants.
    pub proof fn lemma_on_path_le(&self, x: int, f: int)
        requires
            self.on_path(x, f),
            0 <= f,
        ensures
            x <= f,
        decreases f,
    {
        if x != f {
            match self.node(f).parent_id {
                Some(p) => {
                    if 0 <= p < f {
                        self.lemma_on_path_le(x, p as int);
                    }
                },
                None => {},
            }
        }
    }

    /// An ancestor's parent is itself an ancestor: stepping from `x`
    /// to its parent stays on the path from `f` to the root.
    pub proof fn lemma_on_path_step(&self, x: int, p: int, f: int)
        requires
            self.on_path(x, f),
            0 <= f,
            self.node(x).parent_id == Some(p as usize),
            0 <= p < x,
            p <= usize::MAX,
        ensures
            self.on_path(p, f),
        decreases f,
    {
        if x == f {
            assert(self.on_path(p, p));
        } else {
            match self.node(f).parent_id {
                Some(q) => {
                    if 0 <= q < f {
                        self.lemma_on_path_step(x, p, q as int);
                    }
                },
                None => {},
            }
        }
    }

    /// Two trees that agree on every parent link of the first agree on
    /// ancestry within the first.
    pub proof fn lemma_on_path_frame(pre: Self, post: Self, x: int, f: int)
        requires
            0 <= f < pre.spec_len(),
            pre.spec_len() <= post.spec_len(),
            forall|i: int|
                0 <= i < pre.spec_len() ==> (#[trigger] post.node(i)).parent_id
                    == pre.node(i).parent_id,
        ensures
            pre.on_path(x, f) == post.on_path(x, f),
        decreases f,
    {
        match pre.node(f).parent_id {
            Some(p) => {
                if 0 <= p < f {
                    Self::lemma_on_path_frame(pre, post, x, p as int);
                }
            },
            None => {},
        }
    }

    /// The dense-id law: the node stored at position `i` carries id
    /// `i` — ids start at 0, rise by one with each creation, and are
    /// never reused.
    pub proof fn lemma_ids_dense(&self, i: int)
        requires
            self.wf(),
            0 <= i < self.spec_len(),
        ensures
            self.node(i).id == i,
    {
    }

    /// The mutual link law: a node `n` stands in `p`'s child list if
    /// and only if `n`'s parent link names `p`.
    pub proof fn lemma_child_parent_mutual(&self, p: int, n: int)
        requires
            self.wf(),
            0 <= p < self.spec_len(),
            0 <= n < self.spec_len(),
        ensures
            self.node(p).child_ids@.contains(n as usize) <==> self.node(n).parent_id
                == Some(p as usize),
    {
        if self.node(p).child_ids@.contains(n as usize) {
            let k = choose|k: int|
                0 <= k < self.node(p).child_ids@.len() && self.node(p).child_ids@[k]
                    == n as usize;
            assert(self.node(self.node(p).child_ids@[k] as int).parent_id
                == Some(p as usize));
        }
    }

    /// A change that keeps every id, link, position and depth — only
    /// statistics or untried actions may differ — keeps a tree
    /// well-formed, as long as statistics stay coherent and finished
    /// positions keep no untried action.
    proof fn lemma_wf_links_kept(pre: Self, post: Self)
        requires
            pre.wf(),
            post.index == pre.index,
            post.spec_len() == pre.spec_len(),
            forall|i: int|
                0 <= i < pre.spec_len() ==> {
                    &&& (#[trigger] post.node(i)).state == pre.node(i).state
                    &&& post.node(i).id == pre.node(i).id
                    &&& post.node(i).parent_id == pre.node(i).parent_id
                    &&& post.node(i).child_ids == pre.node(i).child_ids
                    &&& post.node(i).depth == pre.node(i).depth
                    &&& post.node(i).score_wf()
                    &&& post.node(i).actions@.len() <= pre.node(i).actions@.len()
                    &&& forall|k: int|
                        0 <= k < post.node(i).actions@.len()
                            ==> post.node(i).actions@[k] == pre.node(i).actions@[k]
                    &&& (post.node(i).state.spec_terminal(post.node(i).depth)
                        ==> post.node(i).actions@.len() == 0)
                },
        ensures
            post.wf(),
    {
        let len = post.spec_len() as int;
        assert forall|i: int| 0 <= i < len implies (#[trigger] post.node(i)).id == i by {
            assert(pre.node(i).id == i);
        }
        assert forall|i: int| 0 <= i < len implies
            match (#[trigger] post.node(i)).parent_id {
                Some(p) => {
                    &&& 0 <= p < i
                    &&& post.node(i).depth == post.node(p as int).depth + 1
                    &&& post.node(p as int).child_ids@.contains(i as usize)
                    &&& match post.node(i).state.spec_last_action() {
                        Some(a) => post.node(p as int).state.spec_can_apply(a)
                            && post.node(i).state == post.node(p as int).state.spec_apply(
                            a),
                        None => false,
                    }
                },
                None => post.node(i).depth == 0,
            } by {
            assert(pre.wf());
            match pre.node(i).parent_id {
                Some(p) => {
                    assert(pre.node(p as int).child_ids@.contains(i as usize));
                    assert(post.node(p as int).child_ids == pre.node(p as int).child_ids);
                    assert(post.node(i).state == pre.node(i).state);
                    assert(post.node(p as int).state == pre.node(p as int).state);
                },
                None => {},
            }
        }
        assert forall|i: int| 0 <= i < len implies
            (#[trigger] post.node(i)).depth <= DEPTH_CAP by {
            assert(pre.node(i).depth <= DEPTH_CAP);
        }
        assert forall|i: int, k: int|
            0 <= i < len && 0 <= k < post.node(i).child_ids@.len() implies
            i < #[trigger] post.node(i).child_ids@[k] < len
                && post.node(post.node(i).child_ids@[k] as int).parent_id
                    == Some(i as usize) by {
            assert(post.node(i).child_ids == pre.node(i).child_ids);
            assert(i < pre.node(i).child_ids@[k] < len);
            assert(pre.node(pre.node(i).child_ids@[k] as int).parent_id == Some(i as usize));
        }
        assert forall|i: int, k1: int, k2: int|
            0 <= i < len && 0 <= k1 < k2 < post.node(i).child_ids@.len() implies
            #[trigger] post.node(i).child_ids@[k1]
                < #[trigger] post.node(i).child_ids@[k2] by {
            assert(post.node(i).child_ids == pre.node(i).child_ids);
            assert(pre.node(i).child_ids@[k1] < pre.node(i).child_ids@[k2]);
        }
        assert forall|i: int, k: int|
            0 <= i < len && 0 <= k < post.node(i).actions@.len() implies
            post.node(i).state.spec_can_apply(#[trigger] post.node(i).actions@[k]) by {
            assert(pre.node(i).state.spec_can_apply(pre.node(i).actions@[k]));
        }
    }

    pub fn size(&self) -> (r: usize)
        ensures
            r == self.spec_len(),
    {
        self.nodes.len()
    }

    /// Appends a node for `state` under `parent_id` (or as a root) and
    /// hands out the next id; the parent's child list is extended by
    /// exactly that id.
    pub fn add_state(&mut self, state: T, parent_id: Option<usize>) -> (id: usize)
        requires
            old(self).wf(),
            old(self).spec_len() < usize::MAX,
            match parent_id {
                Some(p) => {
                    &&& p < old(self).spec_len()
                    &&& !old(self).node(p as int).state.spec_terminal(
                        old(self).node(p as int).depth)
                    &&& match state.spec_last_action() {
                        Some(a) => old(self).node(p as int).state.spec_can_apply(a)
                            && state == old(self).node(p as int).state.spec_apply(a),
                        None => false,
                    }
                },
                None => true,
            },
        ensures
            final(self).wf(),
            old(self).progress_wf() ==> final(self).progress_wf(),
            id == old(self).spec_len(),
            final(self).spec_len() == old(self).spec_len() + 1,
            final(self).node(id as int).state == state,
            final(self).node(id as int).id == id,
            final(self).node(id as int).parent_id == parent_id,
            final(self).node(id as int).num_sims == 0,
            final(self).node(id as int).score == 0,
            final(self).node(id as int).child_ids@.len() == 0,
            final(self).node(id as int).depth == match parent_id {
                Some(p) => old(self).node(p as int).depth + 1,
                None => 0,
            },
            (final(self).node(id as int).actions@.len() == 0)
                <==> state.spec_terminal(final(self).node(id as int).depth),
            forall|i: int|
                0 <= i < old(self).spec_len() && parent_id != Some(i as usize)
                    ==> final(self).node(i) == old(self).node(i),
            match parent_id {
                Some(p) => {
                    &&& final(self).node(p as int).child_ids@
                        == old(self).node(p as int).child_ids@.push(id)
                    &&& final(self).node(p as int).state == old(self).node(p as int).state
                    &&& final(self).node(p as int).id == old(self).node(p as int).id
                    &&& final(self).node(p as int).parent_id
                        == old(self).node(p as int).parent_id
                    &&& final(self).node(p as int).actions == old(self).node(p as int).actions
                    &&& final(self).node(p as int).depth == old(self).node(p as int).depth
                    &&& final(self).node(p as int).num_sims
                        == old(self).node(p as int).num_sims
                    &&& final(self).node(p as int).score == old(self).node(p as int).score
                },
                None => true,
            },
    {
        let id = self.index;
        let depth: u64 = match parent_id {
            Some(p) => {
                proof {
                    let pn = self.node(p as int);
                    if pn.depth >= DEPTH_CAP {
                        pn.state.lemma_depth_cap(pn.depth);
                    }
                }
                self.nodes[p].depth + 1
            },
            None => 0,
        };
        let node = Node::new(state, id, parent_id, depth);
        if let Some(parent) = parent_id {
            self.nodes[parent].child_ids.push(id);
        }
        self.nodes.push(node);
        self.index = self.index + 1;
        proof {
            let pre = *old(self);
            let ol = pre.spec_len() as int;
            assert forall|i: int| 0 <= i < self.spec_len() implies
                (#[trigger] self.node(i)).id == i by {
                if i < ol {
                    assert(pre.node(i).id == i);
                }
            }
            assert forall|i: int| 0 <= i < self.spec_len() implies
                match (#[trigger] self.node(i)).parent_id {
                    Some(p) => {
                        &&& 0 <= p < i
                        &&& self.node(i).depth == self.node(p as int).depth + 1
                        &&& self.node(p as int).child_ids@.contains(i as usize)
                        &&& match self.node(i).state.spec_last_action() {
                            Some(a) => self.node(p as int).state.spec_can_apply(a)
                                && self.node(i).state == self.node(p as int).state.spec_apply(
                                a),
                            None => false,
                        }
                    },
                    None => self.node(i).depth == 0,
                } by {
                if i < ol {
                    match pre.node(i).parent_id {
                        Some(p) => {
                            if parent_id == Some(p) {
                                let cs = pre.node(p as int).child_ids@;
                                let k = choose|k: int| 0 <= k < cs.len() && cs[k] == i as usize;
                                assert(cs.push(id)[k] == i as usize);
                            }
                        },
                        None => {},
                    }
                } else {
                    match parent_id {
                        Some(p) => {
                            let cs2 = self.node(p as int).child_ids@;
                            assert(cs2[cs2.len() - 1] == id);
                        },
                        None => {},
                    }
                }
            }
            assert forall|i: int| 0 <= i < self.spec_len() implies
                (#[trigger] self.node(i)).depth <= DEPTH_CAP by {
                if i < ol {
                    assert(pre.node(i).depth <= DEPTH_CAP);
                }
            }
            assert forall|i: int, k: int|
                0 <= i < self.spec_len() && 0 <= k < self.node(i).child_ids@.len() implies
                i < #[trigger] self.node(i).child_ids@[k] < self.spec_len()
                    && self.node(self.node(i).child_ids@[k] as int).parent_id
                        == Some(i as usize) by {
                if i < ol {
                    if parent_id == Some(i as usize) {
                        let cs = pre.node(i).child_ids@;
                        if k < cs.len() {
                            assert(i < cs[k] < ol);
                        } else {
                            assert(self.node(i).child_ids@[k] == id);
                        }
                    } else {
                        assert(0 <= k < pre.node(i).child_ids@.len());
                        assert(i < pre.node(i).child_ids@[k] < ol);
                    }
                }
            }
            assert forall|i: int, k1: int, k2: int|
                0 <= i < self.spec_len() && 0 <= k1 < k2 < self.node(i).child_ids@.len() implies
                #[trigger] self.node(i).child_ids@[k1]
                    < #[trigger] self.node(i).child_ids@[k2] by {
                if i < ol {
                    if parent_id == Some(i as usize) {
                        let cs = pre.node(i).child_ids@;
                        if k2 < cs.len() {
                            assert(cs[k1] < cs[k2]);
                        } else {
                            assert(i < cs[k1] < ol);
                            assert(self.node(i).child_ids@[k2] == id);
                        }
                    } else {
                        assert(pre.node(i).child_ids@[k1] < pre.node(i).child_ids@[k2]);
                    }
                }
            }
            assert forall|i: int| 0 <= i < self.spec_len() implies
                ((#[trigger] self.node(i)).state.spec_terminal(self.node(i).depth)
                    ==> self.node(i).actions@.len() == 0) by {
                if i < ol {
                    assert(pre.node(i).state.spec_terminal(pre.node(i).depth)
                        ==> pre.node(i).actions@.len() == 0);
                }
            }
            if pre.progress_wf() {
                assert forall|i: int| 0 <= i < self.spec_len() implies
                    (!(#[trigger] self.node(i)).state.spec_terminal(self.node(i).depth)
                        ==> self.node(i).actions@.len() + self.node(i).child_ids@.len() >= 1) by {
                    if i < ol {
                        assert(!pre.node(i).state.spec_terminal(pre.node(i).depth)
                            ==> pre.node(i).actions@.len() + pre.node(i).child_ids@.len() >= 1);
                    }
                }
            }
            assert forall|i: int, k: int|
                0 <= i < self.spec_len() && 0 <= k < self.node(i).actions@.len() implies
                self.node(i).state.spec_can_apply(
                    #[trigger] self.node(i).actions@[k]) by {
                if i < ol {
                    assert(pre.node(i).state.spec_can_apply(pre.node(i).actions@[k]));
                }
            }
            assert forall|i: int| 0 <= i < self.spec_len() implies
                (#[trigger] self.node(i)).score_wf() by {
                if i < ol {
                    assert(pre.node(i).score_wf());
                }
            }
        }
        id
    }

    pub fn get_parent_id(&self, node_id: usize) -> (r: Option<usize>)
        requires
            node_id < self.spec_len(),
        ensures
            r == self.node(node_id as int).parent_id,
    {
        self.nodes[node_id].parent_id
    }

    /// An independent copy of a node's position.
    pub fn get_state(&self, node_id: usize) -> (r: T)
        requires
            node_id < self.spec_len(),
        ensures
            r == self.node(node_id as int).state,
    {
        self.nodes[node_id].state.duplicate()
    }

    pub fn get_state_ref(&self, node_id: usize) -> (r: &T)
        requires
            node_id < self.spec_len(),
        ensures
            *r == self.node(node_id as int).state,
    {
        &self.nodes[node_id].state
    }

    /// Independent copies of the positions of a node's children, in
    /// child-list order.
    pub fn get_child_states(&self, node_id: usize) -> (r: Vec<T>)
        requires
            self.wf(),
            node_id < self.spec_len(),
        ensures
            r@.len() == self.node(node_id as int).child_ids@.len(),
            forall|k: int|
                0 <= k < r@.len() ==> #[trigger] r@[k]
                    == self.node(self.node(node_id as int).child_ids@[k] as int).state,
    {
        let mut r: Vec<T> = Vec::new();
        let n = self.nodes[node_id].child_ids.len();
        let mut k: usize = 0;
        while k < n
            invariant
                self.wf(),
                node_id < self.spec_len(),
                n == self.node(node_id as int).child_ids@.len(),
                k <= n,
                r@.len() == k,
                forall|j: int|
                    0 <= j < k ==> #[trigger] r@[j]
                        == self.node(self.node(node_id as int).child_ids@[j] as int).state,
            decreases n - k,
        {
            let child_id = self.nodes[node_id].child_ids[k];
            r.push(self.nodes[child_id].state.duplicate());
            k = k + 1;
        }
        r
    }

    /// A uniformly random child id, or the node's own id if it has no
    /// children yet.
    pub fn random_child(&self, node_id: usize) -> (r: usize)
        requires
            self.wf(),
            node_id < self.spec_len(),
        ensures
            r < self.spec_len(),
            self.node(node_id as int).child_ids@.len() == 0 ==> r == node_id,
            self.node(node_id as int).child_ids@.len() > 0
                ==> self.node(node_id as int).child_ids@.contains(r),
    {
        let n = self.nodes[node_id].child_ids.len();
        if n == 0 {
            node_id
        } else {
            let k = rng::random_below(n);
            let r = self.nodes[node_id].child_ids[k];
            proof {
                assert(self.node(node_id as int).child_ids@.contains(r)) by {
                    assert(self.node(node_id as int).child_ids@[k as int] == r);
                }
            }
            r
        }
    }

    /// Whether a node's untried-action list is exhausted. Note this is
    /// about untried actions, not about children having been visited:
    /// a node only counts as fully expanded once every action has been
    /// materialized, which is what keeps zero-visit children out of
    /// selection.
    pub fn is_fully_expanded(&self, node_id: usize) -> (r: bool)
        requires
            node_id < self.spec_len(),
        ensures
            r == (self.node(node_id as int).actions@.len() == 0),
    {
        self.nodes[node_id].actions.is_empty()
    }

    pub fn is_terminal(&self, node_id: usize) -> (r: bool)
        requires
            node_id < self.spec_len(),
        ensures
            r == self.node(node_id as int).state.spec_terminal(
                self.node(node_id as int).depth),
    {
        let depth = self.nodes[node_id].depth;
        self.nodes[node_id].state.is_terminal(depth)
    }

    /// One more visit of one node with the given reward; everything
    /// else stays as it was.
    pub fn update_node(&mut self, node_id: usize, reward: u64)
        requires
            old(self).wf(),
            node_id < old(self).spec_len(),
            old(self).node(node_id as int).num_sims < MAX_SIMS,
            reward <= REWARD_UNIT,
        ensures
            final(self).wf(),
            old(self).progress_wf() ==> final(self).progress_wf(),
            final(self).spec_len() == old(self).spec_len(),
            Self::same_shape(*old(self), *final(self)),
            final(self).node(node_id as int).num_sims
                == old(self).node(node_id as int).num_sims + 1,
            final(self).node(node_id as int).score
                == old(self).node(node_id as int).score + reward,
            final(self).node(node_id as int).state == old(self).node(node_id as int).state,
            final(self).node(node_id as int).id == old(self).node(node_id as int).id,
            final(self).node(node_id as int).parent_id
                == old(self).node(node_id as int).parent_id,
            final(self).node(node_id as int).child_ids
                == old(self).node(node_id as int).child_ids,
            final(self).node(node_id as int).actions
                == old(self).node(node_id as int).actions,
            final(self).node(node_id as int).depth == old(self).node(node_id as int).depth,
            forall|i: int|
                0 <= i < old(self).spec_len() && i != node_id
                    ==> final(self).node(i) == old(self).node(i),
    {
        let node = &mut self.nodes[node_id];
        node.update(reward);
        proof {
            Self::lemma_wf_links_kept(*old(self), *self);
            if old(self).progress_wf() {
                assert forall|i: int|
                    0 <= i < self.spec_len() implies
                    (!(#[trigger] self.node(i)).state.spec_terminal(self.node(i).depth)
                        ==> self.node(i).actions@.len() + self.node(i).child_ids@.len()
                            >= 1) by {
                    assert(!old(self).node(i).state.spec_terminal(old(self).node(i).depth)
                        ==> old(self).node(i).actions@.len()
                            + old(self).node(i).child_ids@.len() >= 1);
                }
            }
        }
    }

    /// The child with the highest UCT score, ties to the first one
    /// encountered; `None` only for a childless node. Every child must
    /// already be visited — guaranteed between iterations by
    /// `visits_wf` — so a mean is never taken over zero visits.
    fn uct_select_child(&self, node_id: usize) -> (r: Option<usize>)
        requires
            self.wf(),
            self.visits_wf(),
            node_id < self.spec_len(),
        ensures
            match r {
                Some(c) => node_id < c < self.spec_len()
                    && self.is_first_uct_best(node_id as int, c),
                None => self.node(node_id as int).child_ids@.len() == 0,
            },
    {
        let ghost p = node_id as int;
        let n_children = self.nodes[node_id].child_ids.len();
        if n_children == 0 {
            return None;
        }
        let parent_sims = self.nodes[node_id].num_sims;
        let first_id = self.nodes[node_id].child_ids[0];
        proof {
            assert(self.node(first_id as int).parent_id == Some(node_id));
        }
        let mut best_k: usize = 0;
        let mut best_id: usize = first_id;
        let mut best_score: u64 = self.nodes[first_id].uct_score(parent_sims);
        let mut k: usize = 1;
        while k < n_children
            invariant
                self.wf(),
                self.visits_wf(),
                node_id < self.spec_len(),
                p == node_id as int,
                n_children == self.node(p).child_ids@.len(),
                parent_sims == self.node(p).num_sims,
                1 <= k <= n_children,
                best_k < k,
                best_id == self.node(p).child_ids@[best_k as int],
                best_score == self.child_uct(p, best_k as int),
                forall|j: int| 0 <= j < k ==> #[trigger] self.child_uct(p, j) <= best_score,
                forall|j: int|
                    0 <= j < best_k ==> #[trigger] self.child_uct(p, j) < best_score,
            decreases n_children - k,
        {
            let cid = self.nodes[node_id].child_ids[k];
            proof {
                assert(self.node(cid as int).parent_id == Some(node_id));
            }
            let s = self.nodes[cid].uct_score(parent_sims);
            if s > best_score {
                best_k = k;
                best_id = cid;
                best_score = s;
            }
            k = k + 1;
        }
        proof {
            assert(self.is_first_uct_best(p, best_id)) by {
                assert(0 <= best_k < self.node(p).child_ids@.len()
                    && self.node(p).child_ids@[best_k as int] == best_id
                    && (forall|j: int|
                        0 <= j < self.node(p).child_ids@.len()
                            ==> #[trigger] self.child_uct(p, j)
                                <= self.child_uct(p, best_k as int))
                    && (forall|j: int|
                        0 <= j < best_k ==> #[trigger] self.child_uct(p, j)
                            < self.child_uct(p, best_k as int)));
            }
        }
        Some(best_id)
    }

    /// Descent phase: walk down from `node_id`, at every fully expanded
    /// playable node moving to the first child with the maximal UCT
    /// score, and stop at the first node that is finished or still has
    /// an untried action. The whole walk is in the contract: a chain of
    /// nodes where every step leaves a fully expanded playable node
    /// for its first UCT-best child.
    pub fn select_child(&self, node_id: usize) -> (r: usize)
        requires
            self.wf(),
            self.progress_wf(),
            self.visits_wf(),
            node_id < self.spec_len(),
        ensures
            r < self.spec_len(),
            self.on_path(node_id as int, r as int),
            self.node(node_id as int).actions@.len() > 0 ==> r == node_id,
            self.node(r as int).state.spec_terminal(self.node(r as int).depth)
                || self.node(r as int).actions@.len() > 0,
            exists|ids: Seq<int>|
                #![auto]
                {
                    &&& ids.len() >= 1
                    &&& ids[0] == node_id as int
                    &&& ids[ids.len() - 1] == r as int
                    &&& self.uct_chain(ids)
                },
    {
        let start = node_id;
        let mut node_id = node_id;
        let ghost mut ids: Seq<int> = seq![node_id as int];
        while self.is_fully_expanded(node_id) && !self.is_terminal(node_id)
            invariant
                self.wf(),
                self.progress_wf(),
                self.visits_wf(),
                start < self.spec_len(),
                node_id < self.spec_len(),
                self.on_path(start as int, node_id as int),
                self.node(start as int).actions@.len() > 0 ==> node_id == start,
                ids.len() >= 1,
                ids[0] == start as int,
                ids[ids.len() - 1] == node_id as int,
                self.uct_chain(ids),
            decreases self.spec_len() - node_id,
        {
            let next = self.uct_select_child(node_id);
            proof {
                let c = next.unwrap();
                let old_ids = ids;
                ids = ids.push(c as int);
                assert(ids.drop_last() =~= old_ids);
                assert(ids[ids.len() - 2] == node_id as int);
                assert(self.uct_chain(ids));
            }
            node_id = next.unwrap();
        }
        node_id
    }

    /// Expansion phase: materialize one untried action of `node_id` as
    /// a new child and hand back the child's id; with nothing left to
    /// try — legitimate only for a finished position — the node itself
    /// comes back and the tree stands unchanged.
    pub fn expand(&mut self, node_id: usize) -> (r: usize)
        requires
            old(self).wf(),
            old(self).progress_wf(),
            node_id < old(self).spec_len(),
            old(self).spec_len() < usize::MAX,
        ensures
            final(self).wf(),
            final(self).progress_wf(),
            r < final(self).spec_len(),
            old(self).node(node_id as int).actions@.len() == 0
                ==> *final(self) == *old(self) && r == node_id,
            old(self).node(node_id as int).actions@.len() > 0 ==> {
                &&& r == old(self).spec_len()
                &&& final(self).spec_len() == old(self).spec_len() + 1
                &&& final(self).node(r as int).parent_id == Some(node_id)
                &&& final(self).node(r as int).state == old(self).node(
                    node_id as int).state.spec_apply(
                    old(self).node(node_id as int).actions@.last())
                &&& final(self).node(r as int).num_sims == 0
                &&& final(self).node(r as int).score == 0
                &&& final(self).node(r as int).child_ids@.len() == 0
                &&& final(self).node(r as int).depth
                    == old(self).node(node_id as int).depth + 1
                &&& final(self).node(node_id as int).actions@
                    == old(self).node(node_id as int).actions@.drop_last()
                &&& final(self).node(node_id as int).child_ids@
                    == old(self).node(node_id as int).child_ids@.push(r)
                &&& final(self).node(node_id as int).state
                    == old(self).node(node_id as int).state
                &&& final(self).node(node_id as int).depth
                    == old(self).node(node_id as int).depth
                &&& final(self).node(node_id as int).parent_id
                    == old(self).node(node_id as int).parent_id
                &&& final(self).node(node_id as int).num_sims
                    == old(self).node(node_id as int).num_sims
                &&& final(self).node(node_id as int).score
                    == old(self).node(node_id as int).score
                &&& forall|i: int|
                    0 <= i < old(self).spec_len() && i != node_id
                        ==> final(self).node(i) == old(self).node(i)
            },
    {
        if self.nodes[node_id].actions.is_empty() {
            return node_id;
        }
        proof {
            assert(!self.node(node_id as int).state.spec_terminal(
                self.node(node_id as int).depth));
        }
        let action = self.nodes[node_id].actions.pop().unwrap();
        proof {
            Self::lemma_wf_links_kept(*old(self), *self);
        }
        let new_state = self.nodes[node_id].state.apply_action(action);
        let r = self.add_state(new_state, Some(node_id));
        proof {
            assert forall|i: int|
                0 <= i < self.spec_len() implies
                (!(#[trigger] self.node(i)).state.spec_terminal(self.node(i).depth)
                    ==> self.node(i).actions@.len() + self.node(i).child_ids@.len()
                        >= 1) by {
                if i < old(self).spec_len() && i != node_id {
                    assert(self.node(i) == old(self).node(i));
                    assert(!old(self).node(i).state.spec_terminal(old(self).node(i).depth)
                        ==> old(self).node(i).actions@.len()
                            + old(self).node(i).child_ids@.len() >= 1);
                }
            }
        }
        r
    }

    /// The child with the highest visit count, ties to the first one
    /// encountered; `None` only for a childless node.
    fn most_visited_child(&self, node_id: usize) -> (r: Option<usize>)
        requires
            self.wf(),
            node_id < self.spec_len(),
        ensures
            match r {
                Some(c) => node_id < c < self.spec_len()
                    && self.is_first_most_visited(node_id as int, c)
                    && self.node(c as int).parent_id == Some(node_id),
                None => self.node(node_id as int).child_ids@.len() == 0,
            },
    {
        let ghost p = node_id as int;
        let n_children = self.nodes[node_id].child_ids.len();
        if n_children == 0 {
            return None;
        }
        let mut best_k: usize = 0;
        let mut best_id: usize = self.nodes[node_id].child_ids[0];
        let mut best_sims: u64 = self.nodes[best_id].num_sims;
        let mut k: usize = 1;
        while k < n_children
            invariant
                self.wf(),
                node_id < self.spec_len(),
                p == node_id as int,
                n_children == self.node(p).child_ids@.len(),
                1 <= k <= n_children,
                best_k < k,
                best_id == self.node(p).child_ids@[best_k as int],
                best_sims == self.child_sims(p, best_k as int),
                forall|j: int| 0 <= j < k ==> #[trigger] self.child_sims(p, j) <= best_sims,
                forall|j: int|
                    0 <= j < best_k ==> #[trigger] self.child_sims(p, j) < best_sims,
            decreases n_children - k,
        {
            let cid = self.nodes[node_id].child_ids[k];
            let s = self.nodes[cid].num_sims;
            if s > best_sims {
                best_k = k;
                best_id = cid;
                best_sims = s;
            }
            k = k + 1;
        }
        proof {
            assert(self.is_first_most_visited(p, best_id)) by {
                assert(0 <= best_k < self.node(p).child_ids@.len()
                    && self.node(p).child_ids@[best_k as int] == best_id
                    && (forall|j: int|
                        0 <= j < self.node(p).child_ids@.len()
                            ==> #[trigger] self.child_sims(p, j)
                                <= self.child_sims(p, best_k as int))
                    && (forall|j: int|
                        0 <= j < best_k ==> #[trigger] self.child_sims(p, j)
                            < self.child_sims(p, best_k as int)));
            }
        }
        Some(best_id)
    }

    /// The final choice of a search: the action leading to the most
    /// visited child of `node_id` — the robust child, whose count is
    /// less noisy than its mean under sampling.
    pub fn best_action(&self, node_id: usize) -> (r: T::Action)
        requires
            self.wf(),
            node_id < self.spec_len(),
            self.node(node_id as int).child_ids@.len() > 0,
        ensures
            self.node(node_id as int).state.spec_can_apply(r),
            exists|c: usize|
                #![auto]
                node_id < c < self.spec_len() && self.is_first_most_visited(
                    node_id as int, c)
                    && self.node(c as int).state.spec_last_action() == Some(r),
    {
        let child_id = self.most_visited_child(node_id).unwrap();
        let r = self.nodes[child_id].state.last_action().unwrap();
        proof {
            assert(self.node(child_id as int).parent_id == Some(node_id));
            assert(self.node(node_id as int).state.spec_can_apply(r));
            assert(node_id < child_id < self.spec_len()
                && self.is_first_most_visited(node_id as int, child_id)
                && self.node(child_id as int).state.spec_last_action() == Some(r));
        }
        r
    }

    /// Diagnostic principal line: the actions along the chain of first
    /// most-visited children from `node_id` down to a node without
    /// children. Every step is a real parent-child edge of the tree,
    /// the walk stops only where no child is left, and the line can
    /// never be longer than the tree has non-root nodes.
    pub fn continuation(&self, node_id: usize) -> (r: Vec<T::Action>)
        requires
            self.wf(),
            node_id < self.spec_len(),
        ensures
            r@.len() < self.spec_len(),
            exists|ids: Seq<int>|
                #![auto]
                {
                    &&& ids.len() == r@.len() + 1
                    &&& ids[0] == node_id as int
                    &&& 0 <= ids[r@.len() as int] < self.spec_len()
                    &&& self.node(ids[r@.len() as int]).child_ids@.len() == 0
                    &&& forall|j: int|
                        0 <= j < r@.len() ==> {
                            &&& 0 <= #[trigger] ids[j + 1] < self.spec_len()
                            &&& self.node(ids[j + 1]).parent_id
                                == Some(ids[j] as usize)
                            &&& self.is_first_most_visited(ids[j], ids[j + 1] as usize)
                            &&& self.node(ids[j + 1]).state.spec_last_action()
                                == Some(r@[j])
                        }
                },
    {
        let mut actions: Vec<T::Action> = Vec::new();
        let mut cur: usize = node_id;
        let ghost mut ids: Seq<int> = seq![node_id as int];
        loop
            invariant
                self.wf(),
                node_id < self.spec_len(),
                cur < self.spec_len(),
                ids.len() == actions@.len() + 1,
                ids[0] == node_id as int,
                ids[ids.len() - 1] == cur as int,
                forall|j: int| 0 <= j < ids.len() ==> j <= #[trigger] ids[j] < self.spec_len(),
                forall|j: int|
                    0 <= j < actions@.len() ==> {
                        &&& 0 <= #[trigger] ids[j + 1] < self.spec_len()
                        &&& self.node(ids[j + 1]).parent_id == Some(ids[j] as usize)
                        &&& self.is_first_most_visited(ids[j], ids[j + 1] as usize)
                        &&& self.node(ids[j + 1]).state.spec_last_action()
                            == Some(actions@[j])
                    },
            ensures
                cur < self.spec_len(),
                ids.len() == actions@.len() + 1,
                ids[0] == node_id as int,
                ids[ids.len() - 1] == cur as int,
                self.node(cur as int).child_ids@.len() == 0,
                forall|j: int| 0 <= j < ids.len() ==> j <= #[trigger] ids[j] < self.spec_len(),
                forall|j: int|
                    0 <= j < actions@.len() ==> {
                        &&& 0 <= #[trigger] ids[j + 1] < self.spec_len()
                        &&& self.node(ids[j + 1]).parent_id == Some(ids[j] as usize)
                        &&& self.is_first_most_visited(ids[j], ids[j + 1] as usize)
                        &&& self.node(ids[j + 1]).state.spec_last_action()
                            == Some(actions@[j])
                    },
            decreases self.spec_len() - cur,
        {
            let next = self.most_visited_child(cur);
            match next {
                Some(c) => {
                    let a = self.nodes[c].state.last_action().unwrap();
                    actions.push(a);
                    proof {
                        assert(c as int > ids[ids.len() - 1]);
                        ids = ids.push(c as int);
                    }
                    cur = c;
                },
                None => {
                    break;
                },
            }
        }
        proof {
            assert(ids[ids.len() - 1] >= actions@.len());
        }
        actions
    }
}

impl<T: State> Default for Tree<T> {
    /// An empty arena: the state a search starts from.
    fn default() -> (r: Self)
        ensures
            r.wf(),
            r.progress_wf(),
            r.visits_wf(),
            r.spec_len() == 0,
    {
        Tree { nodes: Vec::new(), index: 0 }
    }
}

} // verus!
