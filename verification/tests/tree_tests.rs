use mcts::game::Game;
use mcts::player::Player;
use mcts::state::State;
use mcts::tree::Tree;

fn empty_game() -> Game {
    let mut g = Game::new([Player::Human; 2]);
    g.set_shuffle(false);
    g
}

/// Ids are handed out densely from 0 in creation order, and parent and
/// child links mirror each other.
#[test]
fn ids_are_dense_and_links_mutual() {
    let mut tree: Tree<Game> = Tree::default();
    let g = empty_game();
    let root = tree.add_state(g, None);
    assert_eq!(root, 0);
    let a = tree.add_state(g.apply_action(1), Some(root));
    let b = tree.add_state(g.apply_action(2), Some(root));
    assert_eq!(a, 1);
    assert_eq!(b, 2);
    assert_eq!(tree.size(), 3);
    for (i, node) in tree.nodes.iter().enumerate() {
        assert_eq!(node.id, i);
    }
    assert_eq!(tree.nodes[0].child_ids, vec![1, 2]);
    assert_eq!(tree.get_parent_id(a), Some(0));
    assert_eq!(tree.get_parent_id(b), Some(0));
    assert_eq!(tree.get_parent_id(root), None);
}

#[test]
fn expand_trades_one_action_for_one_child() {
    let mut tree: Tree<Game> = Tree::default();
    let root = tree.add_state(empty_game(), None);
    let untried_before = tree.nodes[root].actions.len();
    assert_eq!(untried_before, 7);

    let child = tree.expand(root);
    assert_eq!(child, 1);
    assert_eq!(tree.nodes[root].actions.len(), 6);
    assert_eq!(tree.nodes[root].child_ids, vec![1]);
    assert_eq!(tree.get_parent_id(child), Some(0));
    // The popped action was column 6 (the last of the ordered list).
    assert_eq!(tree.nodes[child].state.last_move, 6);
    assert_eq!(tree.nodes[child].num_sims, 0);
}

#[test]
fn expand_on_node_without_actions_is_a_no_op() {
    let mut tree: Tree<Game> = Tree::default();
    let mut won = empty_game();
    for _ in 0..3 {
        won.do_move(3);
        won.do_move(5);
    }
    won.do_move(3);
    assert!(won.is_terminal());
    let root = tree.add_state(won, None);
    assert_eq!(tree.nodes[root].actions.len(), 0);
    let r = tree.expand(root);
    assert_eq!(r, root);
    assert_eq!(tree.size(), 1);
}

#[test]
fn update_node_accumulates() {
    let mut tree: Tree<Game> = Tree::default();
    let root = tree.add_state(empty_game(), None);
    assert!(!tree.nodes[root].is_explored());
    tree.update_node(root, 1000);
    tree.update_node(root, 500);
    assert!(tree.nodes[root].is_explored());
    assert_eq!(tree.nodes[root].num_sims(), 2);
    assert_eq!(tree.nodes[root].mean_score(), 750);
    assert_eq!(tree.nodes[root].score, 1500);
}

#[test]
fn select_child_stops_at_node_with_untried_actions() {
    let mut tree: Tree<Game> = Tree::default();
    let root = tree.add_state(empty_game(), None);
    assert_eq!(tree.select_child(root), root);
}

#[test]
fn best_action_picks_most_visited_child() {
    let mut tree: Tree<Game> = Tree::default();
    let g = empty_game();
    let root = tree.add_state(g, None);
    let a = tree.add_state(g.apply_action(2), Some(root));
    let b = tree.add_state(g.apply_action(5), Some(root));
    tree.update_node(a, 0);
    tree.update_node(b, 1000);
    tree.update_node(b, 1000);
    tree.update_node(root, 0);
    tree.update_node(root, 1000);
    tree.update_node(root, 1000);
    assert_eq!(tree.best_action(root), 5);
}

#[test]
fn random_child_returns_a_real_child_or_self() {
    let mut tree: Tree<Game> = Tree::default();
    let g = empty_game();
    let root = tree.add_state(g, None);
    assert_eq!(tree.random_child(root), root);
    let a = tree.add_state(g.apply_action(0), Some(root));
    let b = tree.add_state(g.apply_action(1), Some(root));
    for _ in 0..20 {
        let c = tree.random_child(root);
        assert!(c == a || c == b);
    }
}

#[test]
fn get_child_states_in_child_order() {
    let mut tree: Tree<Game> = Tree::default();
    let g = empty_game();
    let root = tree.add_state(g, None);
    tree.add_state(g.apply_action(4), Some(root));
    tree.add_state(g.apply_action(6), Some(root));
    let states = tree.get_child_states(root);
    assert_eq!(states.len(), 2);
    assert_eq!(states[0].last_move, 4);
    assert_eq!(states[1].last_move, 6);
}

#[test]
fn get_state_is_an_independent_copy() {
    let mut tree: Tree<Game> = Tree::default();
    let root = tree.add_state(empty_game(), None);
    let copy = tree.get_state(root);
    assert_eq!(copy.turn(), tree.get_state_ref(root).turn());
    assert!(!tree.is_terminal(root));
    assert!(!tree.is_fully_expanded(root));
}
