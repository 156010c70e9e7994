use mcts::game::{Game, GameState, EMPTY_CELL};
use mcts::player::Player;
use mcts::state::State;

#[test]
fn test_terminal_board_horizontal() {
    let mut game = Game::new([Player::Human; 2]);

    for i in 3..7 {
        assert!(!game.is_terminal());
        game.do_move(i);
        game.do_move(i);
    }

    assert!(game.is_terminal());
}

#[test]
fn test_terminal_board_vertical() {
    let mut game = Game::new([Player::Human; 2]);

    for _ in 0..4 {
        assert!(!game.is_terminal());
        game.do_move(3);
        game.do_move(5);
    }

    assert!(game.is_terminal());
}

#[test]
fn test_terminal_board_diagonal() {
    let mut game = Game::new([Player::Human; 2]);
    let moves = [0, 1, 2, 3, 1, 2, 3, 3, 2, 5, 3];

    for col in moves {
        assert!(!game.is_terminal());
        game.do_move(col);
    }

    assert!(game.is_terminal());
}

/// Scenario: player 0 stacks column 3 four times while player 1 plays
/// elsewhere; the vertical four ends the game in player 0's favor.
#[test]
fn vertical_stack_wins_for_first_player() {
    let mut game = Game::new([Player::Human; 2]);
    let replies = [0, 1, 2];

    for reply in replies {
        assert!(!game.is_terminal());
        game.do_move(3);
        game.do_move(reply);
    }
    game.do_move(3);

    assert!(game.is_terminal());
    assert!(matches!(game.get_state(), GameState::Win(0)));
}

#[test]
fn new_board_is_empty_and_playing() {
    let game = Game::new([Player::Human; 2]);
    for r in 0..6 {
        for c in 0..7 {
            assert_eq!(game.grid[r][c], EMPTY_CELL);
        }
    }
    assert_eq!(game.turn(), 0);
    assert_eq!(game.shape(), (6, 7));
    assert!(matches!(game.get_state(), GameState::Playing));
    assert!(game.last_action().is_none());
}

#[test]
fn do_move_stacks_by_gravity() {
    let mut game = Game::new([Player::Human; 2]);
    game.do_move(3);
    game.do_move(3);
    game.do_move(4);
    assert_eq!(game.grid[0][3], 'x');
    assert_eq!(game.grid[1][3], 'o');
    assert_eq!(game.grid[0][4], 'x');
    assert_eq!(game.last_move(), 4);
    assert_eq!(game.turn(), 1);
    assert_eq!(game.last_action(), Some(4));
}

#[test]
fn column_fills_up() {
    let mut game = Game::new([Player::Human; 2]);
    for _ in 0..3 {
        game.do_move(6);
        game.do_move(6);
    }
    assert!(game.is_filled_col(6));
    assert!(!game.is_filled_col(0));
}

#[test]
fn full_board_without_line_is_draw() {
    let a = ['x', 'x', 'o', 'o', 'x', 'x', 'o'];
    let b = ['o', 'o', 'x', 'x', 'o', 'o', 'x'];
    let game = Game {
        players: [Player::Human; 2],
        turn: 0,
        grid: [a, b, a, b, a, b],
        last_move: 6,
        shuffle: true,
    };
    assert!(matches!(game.get_state(), GameState::Draw));
    assert!(game.is_terminal());
}

#[test]
fn possible_actions_without_shuffle_are_open_columns_in_order() {
    let mut game = Game::new([Player::Human; 2]);
    game.set_shuffle(false);
    assert_eq!(game.possible_actions(), vec![0, 1, 2, 3, 4, 5, 6]);

    for _ in 0..3 {
        game.do_move(2);
        game.do_move(2);
    }
    assert_eq!(game.possible_actions(), vec![0, 1, 3, 4, 5, 6]);
}

/// Shuffling must hand back the same columns; a shuffle that dropped,
/// duplicated or invented entries would fail here.
#[test]
fn possible_actions_with_shuffle_is_a_permutation() {
    let game = Game::new([Player::Human; 2]);
    let mut actions = game.possible_actions();
    actions.sort();
    assert_eq!(actions, vec![0, 1, 2, 3, 4, 5, 6]);
}

#[test]
fn reward_is_relative_to_perspective_mover() {
    let mut game = Game::new([Player::Human; 2]);
    for _ in 0..3 {
        game.do_move(3);
        game.do_move(5);
    }
    game.do_move(3);
    // Player 0 just completed a vertical four on column 3.
    assert!(matches!(game.get_state(), GameState::Win(0)));

    // Perspective whose last mover is player 0: a win.
    assert_eq!(game.reward(&game), 1000);

    // Perspective whose last mover is player 1 (it is player 0's turn
    // there): a loss.
    let fresh = Game::new([Player::Human; 2]);
    assert_eq!(game.reward(&fresh), 0);
}

#[test]
fn reward_for_draw_is_half() {
    let a = ['x', 'x', 'o', 'o', 'x', 'x', 'o'];
    let b = ['o', 'o', 'x', 'x', 'o', 'o', 'x'];
    let game = Game {
        players: [Player::Human; 2],
        turn: 0,
        grid: [a, b, a, b, a, b],
        last_move: 6,
        shuffle: true,
    };
    assert_eq!(game.reward(&game), 500);
}

/// A playable position scored after a depth cutoff falls back to the
/// declared draw value.
#[test]
fn reward_for_cutoff_position_is_draw() {
    let game = Game::new([Player::Human; 2]);
    assert_eq!(game.reward(&game), 500);
}

#[test]
fn depth_cap_ends_playable_position() {
    let game = Game::new([Player::Human; 2]);
    assert!(!State::is_terminal(&game, 0));
    assert!(!State::is_terminal(&game, 29));
    assert!(State::is_terminal(&game, 30));
    assert!(State::is_terminal(&game, 31));
}

#[test]
fn apply_action_leaves_receiver_alone() {
    let game = Game::new([Player::Human; 2]);
    let next = game.apply_action(6);
    assert_eq!(game.grid[0][6], EMPTY_CELL);
    assert_eq!(next.grid[0][6], 'x');
    assert_eq!(next.last_move, 6);
    assert_eq!(next.turn(), 1);
    assert_eq!(next.last_action(), Some(6));
}
