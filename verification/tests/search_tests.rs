use mcts::game::Game;
use mcts::mcts::Mcts;
use mcts::player::{ai_move, Player};
use mcts::state::State;
use mcts::tree::Tree;

fn empty_game() -> Game {
    let mut g = Game::new([Player::Human; 2]);
    g.set_shuffle(false);
    g
}

/// Scenario: a search with a zero-millisecond budget still performs at
/// least one full four-phase iteration and returns a legal action.
#[test]
fn zero_budget_search_still_moves() {
    let mut searcher: Mcts<Game> = Mcts::default();
    let game = Game::new([Player::Human; 2]);
    let col = searcher.search(0, game);
    assert!(col < 7);
    assert!(!game.is_filled_col(col));
    assert!(searcher.tree.size() >= 2);
    assert!(searcher.tree.nodes[0].num_sims() >= 1);
}

/// Scenario: a five-thousand-iteration search from the empty board
/// returns one of the root's own possible actions.
#[test]
fn long_search_returns_possible_action() {
    let mut searcher: Mcts<Game> = Mcts::default();
    let game = Game::new([Player::Human; 2]);
    let col = searcher.search_iterations(5000, game);
    assert!(game.possible_actions().contains(&col));
}

/// With shuffling disabled the whole search is deterministic: two
/// identical runs build identical trees with identical statistics.
#[test]
fn identical_runs_build_identical_trees() {
    let run = || {
        let mut searcher: Mcts<Game> = Mcts::default();
        let col = searcher.search_iterations(300, empty_game());
        (col, searcher)
    };
    let (col_a, a) = run();
    let (col_b, b) = run();
    assert_eq!(col_a, col_b);
    assert_eq!(a.tree.size(), b.tree.size());
    for (na, nb) in a.tree.nodes.iter().zip(b.tree.nodes.iter()) {
        assert_eq!(na.id, nb.id);
        assert_eq!(na.parent_id, nb.parent_id);
        assert_eq!(na.child_ids, nb.child_ids);
        assert_eq!(na.num_sims, nb.num_sims);
        assert_eq!(na.score, nb.score);
        assert_eq!(na.depth, nb.depth);
        assert_eq!(na.state.last_move, nb.state.last_move);
    }
}

/// Backpropagation gives every ancestor exactly one more visit and
/// flips the reward at each step toward the root.
#[test]
fn backpropagation_alternates_and_counts() {
    let mut searcher: Mcts<Game> = Mcts::default();
    let g = empty_game();
    let root = searcher.tree.add_state(g, None);
    let mid = searcher.tree.add_state(g.apply_action(0), Some(root));
    let leaf = searcher.tree.add_state(g.apply_action(0).apply_action(1), Some(mid));
    let off_path = searcher.tree.add_state(g.apply_action(2), Some(root));

    searcher.backpropagate(leaf, 1000);

    assert_eq!(searcher.tree.nodes[leaf].num_sims, 1);
    assert_eq!(searcher.tree.nodes[mid].num_sims, 1);
    assert_eq!(searcher.tree.nodes[root].num_sims, 1);
    assert_eq!(searcher.tree.nodes[off_path].num_sims, 0);

    assert_eq!(searcher.tree.nodes[leaf].score, 1000);
    assert_eq!(searcher.tree.nodes[mid].score, 0);
    assert_eq!(searcher.tree.nodes[root].score, 1000);
    assert_eq!(searcher.tree.nodes[off_path].score, 0);
}

#[test]
fn simulate_reward_is_in_range() {
    let mut searcher: Mcts<Game> = Mcts::default();
    let root = searcher.tree.add_state(empty_game(), None);
    for _ in 0..50 {
        assert!(searcher.simulate(root) <= 1000);
    }
}

/// The diagnostic principal line never has more steps than the tree
/// has non-root nodes, and every step follows a real parent-child
/// edge to the first most-visited child.
#[test]
fn continuation_walks_real_edges() {
    let mut searcher: Mcts<Game> = Mcts::default();
    let _ = searcher.search_iterations(200, empty_game());
    let line = searcher.tree.continuation(0);
    assert!(line.len() <= searcher.tree.size() - 1);

    let mut cur = 0usize;
    for action in line {
        let children = &searcher.tree.nodes[cur].child_ids;
        assert!(!children.is_empty());
        let best = children
            .iter()
            .copied()
            .max_by_key(|&c| searcher.tree.nodes[c].num_sims())
            .unwrap();
        let next = children
            .iter()
            .copied()
            .find(|&c| searcher.tree.nodes[c].num_sims() == searcher.tree.nodes[best].num_sims())
            .unwrap();
        assert_eq!(searcher.tree.get_parent_id(next), Some(cur));
        assert_eq!(searcher.tree.nodes[next].state.last_move, action);
        cur = next;
    }
}

/// The engine's move helper answers with a playable column even under
/// a zero budget.
#[test]
fn ai_move_returns_open_column() {
    let game = Game::new([Player::Human, Player::Ai(0)]);
    let col = ai_move(&game, 0);
    assert!(col < 7);
    assert!(!game.is_filled_col(col));
}

/// A search from a one-move-old position still answers with a column
/// that is open in that position.
#[test]
fn search_from_midgame_position() {
    let mut game = Game::new([Player::Human; 2]);
    game.do_move(3);
    let mut searcher: Mcts<Game> = Mcts::default();
    let col = searcher.search_iterations(500, game);
    assert!(col < 7);
    assert!(!game.is_filled_col(col));
}

#[test]
fn fresh_tree_is_empty() {
    let tree: Tree<Game> = Tree::default();
    assert_eq!(tree.size(), 0);
    let searcher: Mcts<Game> = Mcts::default();
    assert_eq!(searcher.tree.size(), 0);
}
