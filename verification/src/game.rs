//! A fixed-size four-in-a-row board: 6 rows by 7 columns, pieces fall
//! to the lowest open row of their column, four equal marks in a row,
//! column or diagonal win. The board implements the engine's
//! [`State`] contract, with columns as actions.

use vstd::prelude::*;

use crate::player::Player;
use crate::rng;
use crate::state::{State, DEPTH_CAP};

verus! {

broadcast use vstd::array::group_array_axioms;

pub const EMPTY_CELL: char = '.';

/// How a position stands: still playable, won by a player, or drawn
/// with a full board.
pub enum GameState {
    Playing,
    Win(usize),
    Draw,
}

#[derive(Clone, Copy)]
pub struct Game {
    pub players: [Player; 2],
    pub turn: usize,
    /// Row 0 is the bottom; a move on a column fills its lowest empty
    /// cell.
    pub grid: [[char; 7]; 6],
    pub last_move: usize,
    /// Whether `possible_actions` randomizes its order; switching it
    /// off makes a whole search deterministic.
    pub shuffle: bool,
}

impl Game {
    pub open spec fn cell(&self, r: int, c: int) -> char {
        self.grid@[r]@[c]
    }

    /// Four equal, non-empty marks from (r, c) going right.
    pub open spec fn row_win_at(&self, r: int, c: int) -> bool {
        &&& self.cell(r, c) != EMPTY_CELL
        &&& self.cell(r, c) == self.cell(r, c + 1)
        &&& self.cell(r, c) == self.cell(r, c + 2)
        &&& self.cell(r, c) == self.cell(r, c + 3)
    }

    /// Four equal, non-empty marks from (r, c) going up.
    pub open spec fn col_win_at(&self, r: int, c: int) -> bool {
        &&& self.cell(r, c) != EMPTY_CELL
        &&& self.cell(r, c) == self.cell(r + 1, c)
        &&& self.cell(r, c) == self.cell(r + 2, c)
        &&& self.cell(r, c) == self.cell(r + 3, c)
    }

    /// Four equal, non-empty marks from (r, c) going up-right.
    pub open spec fn diag_up_win_at(&self, r: int, c: int) -> bool {
        &&& self.cell(r, c) != EMPTY_CELL
        &&& self.cell(r, c) == self.cell(r + 1, c + 1)
        &&& self.cell(r, c) == self.cell(r + 2, c + 2)
        &&& self.cell(r, c) == self.cell(r + 3, c + 3)
    }

    /// Four equal, non-empty marks from (r, c) going down-right.
    pub open spec fn diag_down_win_at(&self, r: int, c: int) -> bool {
        &&& self.cell(r, c) != EMPTY_CELL
        &&& self.cell(r, c) == self.cell(r - 1, c + 1)
        &&& self.cell(r, c) == self.cell(r - 2, c + 2)
        &&& self.cell(r, c) == self.cell(r - 3, c + 3)
    }

    /// Some winning line is anchored at (r, c).
    pub open spec fn wins_at(&self, r: int, c: int) -> bool {
        ||| (c <= 3 && self.row_win_at(r, c))
        ||| (r <= 2 && self.col_win_at(r, c))
        ||| (r <= 2 && c <= 3 && self.diag_up_win_at(r, c))
        ||| (r >= 3 && c <= 3 && self.diag_down_win_at(r, c))
    }

    /// Somebody has four in a row somewhere on the board.
    pub open spec fn has_win(&self) -> bool {
        exists|r: int, c: int| 0 <= r < 6 && 0 <= c < 7 && #[trigger] self.wins_at(r, c)
    }

    /// No column can take another piece.
    pub open spec fn top_row_full(&self) -> bool {
        forall|c: int| 0 <= c < 7 ==> #[trigger] self.cell(5, c) != EMPTY_CELL
    }

    /// The game's own rules end the position: a win or a full board.
    pub open spec fn spec_over(&self) -> bool {
        self.has_win() || self.top_row_full()
    }

    pub open spec fn spec_filled_col(&self, c: int) -> bool {
        self.cell(5, c) != EMPTY_CELL
    }

    /// The player who made the last move: the opponent of whoever's
    /// turn it is.
    pub open spec fn spec_prev_player(&self) -> usize {
        if self.turn == 0 {
            1
        } else {
            0
        }
    }

    pub open spec fn spec_symbol(&self) -> char {
        if self.turn == 0 {
            'x'
        } else {
            'o'
        }
    }

    /// The playable columns below `n`, in increasing order.
    pub open spec fn open_cols_below(&self, n: int) -> Seq<usize>
        decreases n,
    {
        if n <= 0 {
            Seq::empty()
        } else if !self.spec_filled_col(n - 1) {
            self.open_cols_below(n - 1).push((n - 1) as usize)
        } else {
            self.open_cols_below(n - 1)
        }
    }

    /// All playable columns, in increasing order.
    pub open spec fn spec_open_cols(&self) -> Seq<usize> {
        self.open_cols_below(7)
    }

    /// The first empty row of column `col`, scanning up from `r`;
    /// 6 when the column is full from `r` on.
    pub open spec fn first_empty_from(&self, col: int, r: int) -> int
        decreases 6 - r,
    {
        if r < 0 || r >= 6 {
            6
        } else if self.cell(r, col) == EMPTY_CELL {
            r
        } else {
            self.first_empty_from(col, r + 1)
        }
    }

    /// The board after the side to move drops a piece on `col`.
    pub open spec fn spec_apply_move(&self, col: usize) -> Game {
        let row = self.first_empty_from(col as int, 0);
        Game {
            players: self.players,
            turn: self.spec_prev_player(),
            grid: vstd::array::spec_array_update(
                self.grid,
                row,
                vstd::array::spec_array_update(self.grid@[row], col as int, self.spec_symbol()),
            ),
            last_move: col,
            shuffle: self.shuffle,
        }
    }

    /// An empty board; player 0 moves first, no move has been made
    /// (the out-of-range marker 255 stands for none), and action order
    /// is randomized.
    pub fn new(players: [Player; 2]) -> (g: Game)
        ensures
            g.turn == 0,
            g.last_move == 255,
            g.shuffle == true,
            g.players == players,
            forall|r: int, c: int|
                0 <= r < 6 && 0 <= c < 7 ==> #[trigger] g.cell(r, c) == EMPTY_CELL,
    {
        Game {
            players,
            turn: 0,
            grid: [[EMPTY_CELL; 7]; 6],
            last_move: 255,
            shuffle: true,
        }
    }

    /// Turn the random ordering of `possible_actions` on or off;
    /// nothing else changes.
    pub fn set_shuffle(&mut self, enabled: bool)
        ensures
            final(self).shuffle == enabled,
            final(self).players == old(self).players,
            final(self).turn == old(self).turn,
            final(self).grid == old(self).grid,
            final(self).last_move == old(self).last_move,
    {
        self.shuffle = enabled;
    }

    /// (rows, columns) of the board.
    pub fn shape(&self) -> (r: (usize, usize))
        ensures
            r.0 == 6,
            r.1 == 7,
    {
        (6, 7)
    }

    /// The participant playing seat `idx`.
    pub fn player(&self, idx: usize) -> (r: Player)
        requires
            idx < 2,
        ensures
            r == self.players@[idx as int],
    {
        self.players[idx]
    }

    pub fn last_move(&self) -> (r: usize)
        ensures
            r == self.last_move,
    {
        self.last_move
    }

    pub fn turn(&self) -> (r: usize)
        ensures
            r == self.turn,
    {
        self.turn
    }

    pub fn is_filled_col(&self, col: usize) -> (r: bool)
        requires
            col < 7,
        ensures
            r == self.spec_filled_col(col as int),
    {
        self.grid[5][col] != EMPTY_CELL
    }

    /// Drop the side-to-move's piece on `col`: it lands on the lowest
    /// empty row of that column, and the turn passes to the opponent.
    /// A full column takes no piece, so it is ruled out.
    pub fn do_move(&mut self, col: usize)
        requires
            col < 7,
            !old(self).spec_filled_col(col as int),
        ensures
            *final(self) == old(self).spec_apply_move(col),
    {
        let symbol = match self.turn {
            0 => 'x',
            _ => 'o',
        };
        let mut row: usize = 0;
        while self.grid[row][col] != EMPTY_CELL
            invariant
                col < 7,
                row <= 5,
                !self.spec_filled_col(col as int),
                self.first_empty_from(col as int, 0) == self.first_empty_from(
                    col as int, row as int),
            decreases 5 - row,
        {
            proof {
                assert(self.cell(5, col as int) == EMPTY_CELL);
            }
            row = row + 1;
        }
        proof {
            assert(old(self).first_empty_from(col as int, 0) == row);
        }
        self.grid[row][col] = symbol;
        self.turn = if self.turn == 0 {
            1
        } else {
            0
        };
        self.last_move = col;
        proof {
            let target = old(self).spec_apply_move(col);
            assert(self.grid@[row as int] =~= target.grid@[row as int]);
            assert(self.grid =~= target.grid);
            assert(*self == target);
        }
    }

    /// Scan the whole board: a winning line hands the win to the player
    /// who just moved; otherwise a full top row is a draw, and anything
    /// else is still playable.
    pub fn get_state(&self) -> (r: GameState)
        ensures
            match r {
                GameState::Win(p) => self.has_win() && p == self.spec_prev_player(),
                GameState::Draw => !self.has_win() && self.top_row_full(),
                GameState::Playing => !self.has_win() && !self.top_row_full(),
            },
    {
        let winner = if self.turn == 0 {
            1
        } else {
            0
        };
        let mut row: usize = 0;
        while row < 6
            invariant
                winner == self.spec_prev_player(),
                row <= 6,
                forall|rr: int, cc: int|
                    0 <= rr < row && 0 <= cc < 7 ==> !(#[trigger] self.wins_at(rr, cc)),
            decreases 6 - row,
        {
            let mut col: usize = 0;
            while col < 7
                invariant
                    winner == self.spec_prev_player(),
                    row < 6,
                    col <= 7,
                    forall|rr: int, cc: int|
                        0 <= rr < row && 0 <= cc < 7 ==> !(#[trigger] self.wins_at(rr, cc)),
                    forall|cc: int|
                        0 <= cc < col ==> !(#[trigger] self.wins_at(row as int, cc)),
                decreases 7 - col,
            {
                if self.grid[row][col] != EMPTY_CELL {
                    if col <= 3 && self.grid[row][col] == self.grid[row][col + 1]
                        && self.grid[row][col + 1] == self.grid[row][col + 2]
                        && self.grid[row][col + 2] == self.grid[row][col + 3] {
                        proof {
                            assert(self.wins_at(row as int, col as int));
                        }
                        return GameState::Win(winner);
                    }
                    if row <= 2 && self.grid[row][col] == self.grid[row + 1][col]
                        && self.grid[row + 1][col] == self.grid[row + 2][col]
                        && self.grid[row + 2][col] == self.grid[row + 3][col] {
                        proof {
                            assert(self.wins_at(row as int, col as int));
                        }
                        return GameState::Win(winner);
                    }
                    if row <= 2 && col <= 3 && self.grid[row][col] == self.grid[row + 1][col
                        + 1] && self.grid[row][col] == self.grid[row + 2][col + 2]
                        && self.grid[row][col] == self.grid[row + 3][col + 3] {
                        proof {
                            assert(self.wins_at(row as int, col as int));
                        }
                        return GameState::Win(winner);
                    }
                    if row >= 3 && col <= 3 && self.grid[row][col] == self.grid[row - 1][col
                        + 1] && self.grid[row][col] == self.grid[row - 2][col + 2]
                        && self.grid[row][col] == self.grid[row - 3][col + 3] {
                        proof {
                            assert(self.wins_at(row as int, col as int));
                        }
                        return GameState::Win(winner);
                    }
                }
                proof {
                    assert(!self.wins_at(row as int, col as int));
                }
                col = col + 1;
            }
            row = row + 1;
        }
        let mut c: usize = 0;
        while c < 7
            invariant
                !self.has_win(),
                c <= 7,
                forall|cc: int| 0 <= cc < c ==> #[trigger] self.cell(5, cc) != EMPTY_CELL,
            decreases 7 - c,
        {
            if self.grid[5][c] == EMPTY_CELL {
                proof {
                    assert(self.cell(5, c as int) == EMPTY_CELL);
                    assert(!self.top_row_full());
                    assert(!self.has_win());
                }
                return GameState::Playing;
            }
            c = c + 1;
        }
        GameState::Draw
    }

    /// Whether the game's own rules end this position (a win or a full
    /// board); the search's depth cap is a separate matter.
    pub fn is_terminal(&self) -> (r: bool)
        ensures
            r == self.spec_over(),
    {
        !matches!(self.get_state(), GameState::Playing)
    }
}

impl State for Game {
    type Action = usize;

    open spec fn spec_terminal(&self, depth: u64) -> bool {
        self.spec_over() || depth >= DEPTH_CAP
    }

    /// A win here is worth everything to the winner's side, nothing to
    /// the other; a draw, or a playable position reached only through
    /// the depth cutoff, is worth half to either.
    open spec fn spec_reward(&self, perspective: &Game) -> u64 {
        if self.has_win() {
            if self.spec_prev_player() == perspective.spec_prev_player() {
                1000
            } else {
                0
            }
        } else {
            500
        }
    }

    open spec fn spec_last_action(&self) -> Option<usize> {
        if self.last_move < 7 {
            Some(self.last_move)
        } else {
            None
        }
    }

    open spec fn spec_apply(&self, col: usize) -> Game {
        self.spec_apply_move(col)
    }

    open spec fn spec_can_apply(&self, col: usize) -> bool {
        col < 7 && !self.spec_filled_col(col as int)
    }

    proof fn lemma_terminal_monotone(&self, d1: u64, d2: u64) {
    }

    proof fn lemma_depth_cap(&self, depth: u64) {
    }

    /// The playable columns in increasing order, then shuffled unless
    /// that is switched off: always exactly the open columns, and with
    /// shuffling off exactly in their increasing order — one leg of
    /// what makes a whole search reproducible.
    fn possible_actions(&self) -> (r: Vec<usize>)
        ensures
            r@.to_multiset() == self.spec_open_cols().to_multiset(),
            !self.shuffle ==> r@ == self.spec_open_cols(),
    {
        let mut cols: Vec<usize> = Vec::new();
        let mut c: usize = 0;
        while c < 7
            invariant
                c <= 7,
                cols@ == self.open_cols_below(c as int),
                forall|k: int|
                    0 <= k < cols@.len() ==> (#[trigger] cols@[k]) < 7
                        && !self.spec_filled_col(cols@[k] as int),
                cols@.len() == 0 ==> forall|j: int|
                    0 <= j < c ==> #[trigger] self.cell(5, j) != EMPTY_CELL,
            decreases 7 - c,
        {
            if !self.is_filled_col(c) {
                cols.push(c);
            }
            c = c + 1;
        }
        if self.shuffle {
            let ghost before = cols@;
            rng::shuffle(&mut cols);
            proof {
                before.to_multiset_ensures();
                cols@.to_multiset_ensures();
                assert(cols@.len() == before.len());
                assert forall|k: int|
                    0 <= k < cols@.len() implies (#[trigger] cols@[k]) < 7
                        && !self.spec_filled_col(cols@[k] as int) by {
                    assert(cols@.contains(cols@[k]));
                    assert(before.to_multiset().count(cols@[k]) > 0);
                    assert(before.contains(cols@[k]));
                }
            }
        }
        proof {
            if cols@.len() == 0 {
                assert(self.top_row_full());
            }
        }
        cols
    }

    fn apply_action(&self, col: usize) -> (r: Game) {
        let mut g = *self;
        g.do_move(col);
        g
    }

    fn last_action(&self) -> (r: Option<usize>) {
        if self.last_move < 7 {
            Some(self.last_move)
        } else {
            None
        }
    }

    fn is_terminal(&self, depth: u64) -> (r: bool) {
        let over = Game::is_terminal(self);
        over || depth >= DEPTH_CAP
    }

    /// Reward for reaching this position: full marks when the player
    /// who moved into `perspective` holds the win here, nothing when
    /// the opponent does, and half for a draw. A position cut off by
    /// the depth cap while still playable counts as a draw — that is
    /// this game's declared fallback.
    fn reward(&self, perspective: &Game) -> (r: u64) {
        let me = if perspective.turn == 0 {
            1
        } else {
            0
        };
        match self.get_state() {
            GameState::Draw => 500,
            GameState::Win(w) => if w == me {
                1000
            } else {
                0
            },
            GameState::Playing => 500,
        }
    }

    fn duplicate(&self) -> (r: Game) {
        *self
    }
}

} // verus!
