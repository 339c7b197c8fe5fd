use vstd::prelude::*;

use crate::game::{GameResult, GameState, Player, Tile};
use crate::minmax::{is_child, is_grandchild, minimax_value, plies_apart, search, lemma_pruning_keeps_value_at_depth_two};

verus! {

/// Dropping a disc into a column (0-based, left to right).
#[derive(Debug, Clone, Copy, PartialEq, Eq, Structural)]
pub struct GameAction {
    pub column: u8,
}

pub const BOARD_WIDTH: usize = 7;

pub const BOARD_HEIGHT: usize = 6;

/// Score of a finished game won by Player1 (its negation: won by Player2), in the
/// heuristic's unit of 1/10000. It exceeds the heuristic score of every board.
pub const FOUR_WIN: i64 = 1000000;

/// A four-in-a-row position: row 0 is the bottom row, discs fall to the lowest free
/// row of their column.
#[derive(Debug, Clone, Copy, PartialEq, Eq, Hash)]
pub struct FourRow {
    pub board: [[Tile; 7]; 6],
    pub current_player: Player,
}

pub type FourGrid = Seq<Seq<Tile>>;

/// The abstract value of a four-in-a-row position.
pub struct FourView {
    pub grid: FourGrid,
    pub player: Player,
}

pub open spec fn on_board(r: int, c: int) -> bool {
    0 <= r < 6 && 0 <= c < 7
}

pub open spec fn wf_four(g: FourGrid) -> bool {
    g.len() == 6 && forall|r: int| 0 <= r < 6 ==> #[trigger] g[r].len() == 7
}

pub open spec fn put(g: FourGrid, r: int, c: int, t: Tile) -> FourGrid {
    g.update(r, g[r].update(c, t))
}

/// Four equal non-empty tiles from `(r, c)` in direction `(dr, dc)`, all on the board.
pub open spec fn four_from(g: FourGrid, r: int, c: int, dr: int, dc: int) -> bool {
    &&& on_board(r, c)
    &&& on_board(r + 3 * dr, c + 3 * dc)
    &&& g[r][c] != Tile::Empty
    &&& g[r + dr][c + dc] == g[r][c]
    &&& g[r + 2 * dr][c + 2 * dc] == g[r][c]
    &&& g[r + 3 * dr][c + 3 * dc] == g[r][c]
}

/// A line of four starts at `(r, c)`: to the right, upwards, up-right or down-right.
pub open spec fn wins_at(g: FourGrid, r: int, c: int) -> bool {
    four_from(g, r, c, 0, 1) || four_from(g, r, c, 1, 0) || four_from(g, r, c, 1, 1) || four_from(g, r, c, -1, 1)
}

/// The first cell of row `r`, among its first `n`, where a line of four starts.
pub open spec fn win_in_row(g: FourGrid, r: int, n: int) -> Option<Tile>
    decreases n,
{
    if n <= 0 {
        None
    } else if win_in_row(g, r, n - 1) is Some {
        win_in_row(g, r, n - 1)
    } else if wins_at(g, r, n - 1) {
        Some(g[r][n - 1])
    } else {
        None
    }
}

/// The tile of the first line of four, cells taken row by row from the bottom.
pub open spec fn win_in_rows(g: FourGrid, n: int) -> Option<Tile>
    decreases n,
{
    if n <= 0 {
        None
    } else if win_in_rows(g, n - 1) is Some {
        win_in_rows(g, n - 1)
    } else {
        win_in_row(g, n - 1, 7)
    }
}

pub open spec fn board_full(g: FourGrid) -> bool {
    forall|r: int, c: int| on_board(r, c) ==> #[trigger] g[r][c] != Tile::Empty
}

/// A win for the owner of the first line of four found, else a draw on a full board.
pub open spec fn outcome(g: FourGrid) -> GameResult {
    match win_in_rows(g, 6) {
        Some(Tile::Player1) => GameResult::Win(Player::Player1),
        Some(_) => GameResult::Win(Player::Player2),
        None => if board_full(g) {
            GameResult::Draw
        } else {
            GameResult::Ongoing
        },
    }
}

/// Weight of a disc by column, in 1/10000: central columns weigh more.
pub open spec fn column_weight(c: int) -> int {
    if c == 0 || c == 6 {
        5
    } else if c == 1 || c == 5 {
        20
    } else if c == 2 || c == 4 {
        40
    } else {
        50
    }
}

pub open spec fn disc_score(t: Tile, c: int) -> int {
    match t {
        Tile::Player1 => column_weight(c),
        Tile::Player2 => -column_weight(c),
        Tile::Empty => 0,
    }
}

pub open spec fn disc_row_score(row: Seq<Tile>, n: int) -> int
    decreases n,
{
    if n <= 0 {
        0
    } else {
        disc_row_score(row, n - 1) + disc_score(row[n - 1], n - 1)
    }
}

pub open spec fn disc_grid_score(g: FourGrid, n: int) -> int
    decreases n,
{
    if n <= 0 {
        0
    } else {
        disc_grid_score(g, n - 1) + disc_row_score(g[n - 1], 7)
    }
}

/// A cell next to a line that the line could grow into: on the board and empty.
pub open spec fn open_cell(g: FourGrid, r: int, c: int) -> bool {
    on_board(r, c) && g[r][c] == Tile::Empty
}

/// The score of the three cells from `(r, c)` in direction `(dr, dc)`: for three equal
/// discs that can grow on one side 500, on both sides 800, for Player1 up and for
/// Player2 down; 0 otherwise.
pub open spec fn triple_score(g: FourGrid, r: int, c: int, dr: int, dc: int) -> int {
    let t = g[r][c];
    let sides = (if open_cell(g, r - dr, c - dc) { 1int } else { 0int }) + (if open_cell(
        g,
        r + 3 * dr,
        c + 3 * dc,
    ) { 1int } else { 0int });
    if t != Tile::Empty && g[r + dr][c + dc] == t && g[r + 2 * dr][c + 2 * dc] == t && sides > 0 {
        let v = if sides == 2 { 800int } else { 500int };
        if t == Tile::Player1 { v } else { -v }
    } else {
        0
    }
}

pub open spec fn triple_row_sum(g: FourGrid, r: int, n: int, dr: int, dc: int) -> int
    decreases n,
{
    if n <= 0 {
        0
    } else {
        triple_row_sum(g, r, n - 1, dr, dc) + triple_score(g, r, n - 1, dr, dc)
    }
}

/// The triples starting on rows `lo` to `hi - 1`, columns `0` to `ncols - 1`.
pub open spec fn triple_sum(g: FourGrid, lo: int, hi: int, ncols: int, dr: int, dc: int) -> int
    decreases hi - lo,
{
    if hi <= lo {
        0
    } else {
        triple_sum(g, lo, hi - 1, ncols, dr, dc) + triple_row_sum(g, hi - 1, ncols, dr, dc)
    }
}

/// All lines of three: horizontal, vertical, and both diagonals.
pub open spec fn threes_score(g: FourGrid) -> int {
    triple_sum(g, 0, 6, 5, 0, 1) + triple_sum(g, 0, 4, 7, 1, 0) + triple_sum(g, 0, 4, 5, 1, 1)
        + triple_sum(g, 2, 6, 5, -1, 1)
}

pub open spec fn heuristic_score(g: FourGrid) -> int {
    disc_grid_score(g, 6) + threes_score(g)
}

/// The lowest empty row of column `c`, looking from row `r` up.
pub open spec fn landing_row(g: FourGrid, c: int, r: int) -> Option<int>
    decreases 6 - r,
{
    if r >= 6 || r < 0 {
        None
    } else if g[r][c] == Tile::Empty {
        Some(r)
    } else {
        landing_row(g, c, r + 1)
    }
}

/// The columns among the first `n` whose top cell is empty, left to right.
pub open spec fn open_columns(g: FourGrid, n: int) -> Seq<GameAction>
    decreases n,
{
    if n <= 0 {
        seq![]
    } else {
        open_columns(g, n - 1) + if g[5][n - 1] == Tile::Empty {
            seq![GameAction { column: (n - 1) as u8 }]
        } else {
            seq![]
        }
    }
}

impl FourView {
    pub open spec fn is_terminal(self) -> bool {
        outcome(self.grid) != GameResult::Ongoing
    }

    pub open spec fn evaluation(self) -> int {
        match outcome(self.grid) {
            GameResult::Win(Player::Player1) => FOUR_WIN as int,
            GameResult::Win(Player::Player2) => -(FOUR_WIN as int),
            GameResult::Draw => 0,
            GameResult::Ongoing => heuristic_score(self.grid),
        }
    }

    pub open spec fn applied(self, a: GameAction) -> FourView {
        FourView {
            grid: match landing_row(self.grid, a.column as int, 0) {
                Some(r) => put(self.grid, r, a.column as int, self.player.tile_spec()),
                None => self.grid,
            },
            player: self.player.opponent(),
        }
    }
}

impl View for GameAction {
    type V = GameAction;

    open spec fn view(&self) -> GameAction {
        *self
    }
}

impl View for FourRow {
    type V = FourView;

    open spec fn view(&self) -> FourView {
        FourView { grid: Seq::new(6, |r: int| self.board[r]@), player: self.current_player }
    }
}

pub open spec fn ind(b: bool) -> int {
    if b { 1 } else { 0 }
}

impl FourRow {
    pub proof fn lemma_grid_wf(&self)
        ensures
            wf_four(self@.grid),
    {
        assert forall|r: int| 0 <= r < 6 implies #[trigger] self@.grid[r].len() == 7 by {}
    }

    fn set(&mut self, r: usize, c: usize, t: Tile)
        requires
            r < 6,
            c < 7,
        ensures
            final(self)@.grid == put(old(self)@.grid, r as int, c as int, t),
            final(self).current_player == old(self).current_player,
    {
        self.board[r][c] = t;
        assert(self@.grid =~= put(old(self)@.grid, r as int, c as int, t));
    }

    /// The empty board, Player1 to move.
    pub fn new() -> (b: FourRow)
        ensures
            forall|r: int, c: int| on_board(r, c) ==> #[trigger] b@.grid[r][c] == Tile::Empty,
            b.current_player == Player::Player1,
    {
        FourRow { board: [[Tile::Empty; 7]; 6], current_player: Player::Player1 }
    }

    /// Whether a line could grow into `pos`: it is on the board and empty.
    fn is_valid_extension_position(&self, pos: (i32, i32)) -> (r: bool)
        ensures
            r == open_cell(self@.grid, pos.0 as int, pos.1 as int),
    {
        let (row, col) = pos;
        if row < 0 || row >= BOARD_HEIGHT as i32 || col < 0 || col >= BOARD_WIDTH as i32 {
            return false;
        }
        let row = row as usize;
        let col = col as usize;
        if self.board[row][col] != Tile::Empty {
            return false;
        }
        true
    }

    /// On how many ends the line of three cells `positions` could grow.
    fn count_extension_sides(&self, positions: &[(usize, usize); 3]) -> (r: usize)
        requires
            forall|i: int| 0 <= i < 3 ==> on_board((#[trigger] positions@[i]).0 as int, positions@[i].1 as int),
        ensures
            r == ind(open_cell(self@.grid, 2 * positions@[0].0 - positions@[1].0, 2 * positions@[0].1 - positions@[1].1))
                + ind(open_cell(self@.grid, positions@[2].0 + positions@[1].0 - positions@[0].0, positions@[2].1
                + positions@[1].1 - positions@[0].1)),
    {
        let p0 = positions[0];
        let p1 = positions[1];
        let p2 = positions[2];
        assert(on_board(p0.0 as int, p0.1 as int) && on_board(p1.0 as int, p1.1 as int) && on_board(p2.0 as int, p2.1 as int));
        let (row_diff, col_diff) = (p1.0 as i32 - p0.0 as i32, p1.1 as i32 - p0.1 as i32);
        let before_pos = (p0.0 as i32 - row_diff, p0.1 as i32 - col_diff);
        let after_pos = (p2.0 as i32 + row_diff, p2.1 as i32 + col_diff);
        let can_extend_before = self.is_valid_extension_position(before_pos);
        let can_extend_after = self.is_valid_extension_position(after_pos);
        (if can_extend_before { 1usize } else { 0usize }) + (if can_extend_after { 1usize } else { 0usize })
    }

    /// The score of a line of three cells from `(r, c)` in direction `(dr, dc)`, if it
    /// counts.
    fn check_three_in_line(&self, positions: [(usize, usize); 3]) -> (r: Option<i64>)
        requires
            -1 <= positions@[1].0 - positions@[0].0 <= 1,
            -1 <= positions@[1].1 - positions@[0].1 <= 1,
            positions@[2].0 - positions@[1].0 == positions@[1].0 - positions@[0].0,
            positions@[2].1 - positions@[1].1 == positions@[1].1 - positions@[0].1,
            forall|i: int| 0 <= i < 3 ==> on_board((#[trigger] positions@[i]).0 as int, positions@[i].1 as int),
        ensures
            ({
                let v = triple_score(
                    self@.grid,
                    positions@[0].0 as int,
                    positions@[0].1 as int,
                    positions@[1].0 - positions@[0].0,
                    positions@[1].1 - positions@[0].1,
                );
                match r {
                    Some(x) => x == v && v != 0,
                    None => v == 0,
                }
            }),
    {
        let p0 = positions[0];
        let p1 = positions[1];
        let p2 = positions[2];
        assert(on_board(p0.0 as int, p0.1 as int) && on_board(p1.0 as int, p1.1 as int) && on_board(p2.0 as int, p2.1 as int));
        let t0 = self.board[p0.0][p0.1];
        let t1 = self.board[p1.0][p1.1];
        let t2 = self.board[p2.0][p2.1];
        if t0 != Tile::Empty && t0 == t1 && t1 == t2 {
            let extension_sides = self.count_extension_sides(&positions);
            if extension_sides > 0 {
                let score: i64 = if extension_sides == 2 { 800 } else { 500 };
                match t0 {
                    Tile::Player1 => Some(score),
                    Tile::Player2 => Some(-score),
                    Tile::Empty => None,
                }
            } else {
                None
            }
        } else {
            None
        }
    }

    /// The sum of the scores of the lines of three starting on rows `lo` to `hi - 1`,
    /// columns `0` to `ncols - 1`, in direction `(dr, dc)`.
    fn sum_triples(&self, lo: usize, hi: usize, ncols: usize, dr: i32, dc: i32) -> (score: i64)
        requires
            lo <= hi <= 6,
            ncols <= 7,
            -1 <= dr <= 1,
            -1 <= dc <= 1,
            0 <= lo + 2 * dr,
            hi - 1 + 2 * dr < 6,
            0 <= dc,
            ncols - 1 + 2 * dc < 7,
        ensures
            score == triple_sum(self@.grid, lo as int, hi as int, ncols as int, dr as int, dc as int),
            -33600 <= score <= 33600,
    {
        let ghost g = self@.grid;
        let mut score: i64 = 0;
        let mut row: usize = lo;
        while row < hi
            invariant
                lo <= hi <= 6,
                ncols <= 7,
                -1 <= dr <= 1,
                -1 <= dc <= 1,
                0 <= lo + 2 * dr,
                hi - 1 + 2 * dr < 6,
                0 <= dc,
                ncols - 1 + 2 * dc < 7,
                lo <= row <= hi,
                g == self@.grid,
                score == triple_sum(g, lo as int, row as int, ncols as int, dr as int, dc as int),
                -5600 * (row - lo) <= score <= 5600 * (row - lo),
            decreases hi - row,
        {
            let mut col: usize = 0;
            while col < ncols
                invariant
                    lo <= hi <= 6,
                    ncols <= 7,
                    -1 <= dr <= 1,
                    -1 <= dc <= 1,
                    0 <= lo + 2 * dr,
                    hi - 1 + 2 * dr < 6,
                    0 <= dc,
                    ncols - 1 + 2 * dc < 7,
                    lo <= row < hi,
                    col <= ncols,
                    g == self@.grid,
                    score == triple_sum(g, lo as int, row as int, ncols as int, dr as int, dc as int) + triple_row_sum(
                        g,
                        row as int,
                        col as int,
                        dr as int,
                        dc as int,
                    ),
                    -(5600 * (row - lo) + 800 * col) <= score <= 5600 * (row - lo) + 800 * col,
                decreases ncols - col,
            {
                assert(on_board(row + 2 * dr, col + 2 * dc));
                let r1 = (row as i32 + dr) as usize;
                let c1 = (col as i32 + dc) as usize;
                let r2 = (row as i32 + 2 * dr) as usize;
                let c2 = (col as i32 + 2 * dc) as usize;
                if let Some(player_score) = self.check_three_in_line([(row, col), (r1, c1), (r2, c2)]) {
                    score = score + player_score;
                }
                col += 1;
            }
            assert(triple_sum(g, lo as int, row + 1, ncols as int, dr as int, dc as int) == triple_sum(g, lo as int,
                row as int, ncols as int, dr as int, dc as int) + triple_row_sum(g, row as int, ncols as int, dr as int, dc as int));
            row += 1;
        }
        score
    }

    fn count_rows_of_three(&self) -> (score: i64)
        ensures
            score == threes_score(self@.grid),
            -134400 <= score <= 134400,
    {
        let horizontal = self.sum_triples(0, BOARD_HEIGHT, BOARD_WIDTH - 2, 0, 1);
        let vertical = self.sum_triples(0, BOARD_HEIGHT - 2, BOARD_WIDTH, 1, 0);
        let rising = self.sum_triples(0, BOARD_HEIGHT - 2, BOARD_WIDTH - 2, 1, 1);
        let falling = self.sum_triples(2, BOARD_HEIGHT, BOARD_WIDTH - 2, -1, 1);
        horizontal + vertical + rising + falling
    }

    /// The heuristic score of a running game, in 1/10000: discs weighted by column, and
    /// lines of three that can still grow.
    pub fn heuristic(&self) -> (score: i64)
        ensures
            score == heuristic_score(self@.grid),
    {
        let ghost g = self@.grid;
        let column_scores: [i64; 7] = [5, 20, 40, 50, 40, 20, 5];
        let mut score: i64 = 0;
        let mut row: usize = 0;
        while row < BOARD_HEIGHT
            invariant
                row <= 6,
                g == self@.grid,
                column_scores@ == seq![5i64, 20, 40, 50, 40, 20, 5],
                score == disc_grid_score(g, row as int),
                -350 * row <= score <= 350 * row,
            decreases 6 - row,
        {
            let mut col: usize = 0;
            while col < BOARD_WIDTH
                invariant
                    row < 6,
                    col <= 7,
                    g == self@.grid,
                    column_scores@ == seq![5i64, 20, 40, 50, 40, 20, 5],
                    score == disc_grid_score(g, row as int) + disc_row_score(g[row as int], col as int),
                    -(350 * row + 50 * col) <= score <= 350 * row + 50 * col,
                decreases 7 - col,
            {
                match self.board[row][col] {
                    Tile::Player1 => {
                        score = score + column_scores[col];
                    },
                    Tile::Player2 => {
                        score = score - column_scores[col];
                    },
                    Tile::Empty => {},
                }
                col += 1;
            }
            row += 1;
        }
        score + self.count_rows_of_three()
    }

    /// Whether the game is won, drawn or still running.
    pub fn get_terminal(&self) -> (r: GameResult)
        ensures
            r == outcome(self@.grid),
    {
        let ghost g = self@.grid;
        proof {
            self.lemma_grid_wf();
        }
        let mut row: usize = 0;
        while row < BOARD_HEIGHT
            invariant
                row <= 6,
                g == self@.grid,
                wf_four(g),
                win_in_rows(g, row as int) is None,
            decreases 6 - row,
        {
            let mut col: usize = 0;
            while col < BOARD_WIDTH
                invariant
                    row < 6,
                    col <= 7,
                    g == self@.grid,
                    wf_four(g),
                    win_in_rows(g, row as int) is None,
                    win_in_row(g, row as int, col as int) is None,
                decreases 7 - col,
            {
                let tile = self.board[row][col];
                if tile != Tile::Empty {
                    let horizontal = col + 3 < BOARD_WIDTH && tile == self.board[row][col + 1] && tile
                        == self.board[row][col + 2] && tile == self.board[row][col + 3];
                    let vertical = row + 3 < BOARD_HEIGHT && tile == self.board[row + 1][col] && tile
                        == self.board[row + 2][col] && tile == self.board[row + 3][col];
                    let rising = row + 3 < BOARD_HEIGHT && col + 3 < BOARD_WIDTH && tile == self.board[row + 1][col
                        + 1] && tile == self.board[row + 2][col + 2] && tile == self.board[row + 3][col + 3];
                    let falling = row >= 3 && col + 3 < BOARD_WIDTH && tile == self.board[row - 1][col + 1] && tile
                        == self.board[row - 2][col + 2] && tile == self.board[row - 3][col + 3];
                    assert(horizontal == four_from(g, row as int, col as int, 0, 1));
                    assert(vertical == four_from(g, row as int, col as int, 1, 0));
                    assert(rising == four_from(g, row as int, col as int, 1, 1));
                    assert(falling == four_from(g, row as int, col as int, -1, 1));
                    if horizontal || vertical || rising || falling {
                        assert(win_in_row(g, row as int, col + 1) == Some(tile));
                        assert(win_in_row(g, row as int, 7) == Some(tile)) by {
                            lemma_win_in_row_keeps(g, row as int, col + 1, 7);
                        }
                        assert(win_in_rows(g, row + 1) == Some(tile));
                        assert(win_in_rows(g, 6) == Some(tile)) by {
                            lemma_win_in_rows_keeps(g, row + 1, 6);
                        }
                        return if tile == Tile::Player1 {
                            GameResult::Win(Player::Player1)
                        } else {
                            GameResult::Win(Player::Player2)
                        };
                    }
                }
                col += 1;
            }
            row += 1;
        }
        let mut full = true;
        let mut r: usize = 0;
        while r < BOARD_HEIGHT
            invariant
                r <= 6,
                g == self@.grid,
                full == forall|i: int, j: int| 0 <= i < r && 0 <= j < 7 ==> #[trigger] g[i][j] != Tile::Empty,
            decreases 6 - r,
        {
            let mut c: usize = 0;
            while c < BOARD_WIDTH
                invariant
                    r < 6,
                    c <= 7,
                    g == self@.grid,
                    full == forall|i: int, j: int|
                        ((0 <= i < r && 0 <= j < 7) || (i == r && 0 <= j < c)) ==> #[trigger] g[i][j] != Tile::Empty,
                decreases 7 - c,
            {
                if self.board[r][c] == Tile::Empty {
                    assert(g[r as int][c as int] == Tile::Empty);
                    full = false;
                }
                c += 1;
            }
            r += 1;
        }
        if full {
            return GameResult::Draw;
        }
        GameResult::Ongoing
    }
}

pub proof fn lemma_win_in_row_keeps(g: FourGrid, r: int, n: int, m: int)
    requires
        n <= m,
        win_in_row(g, r, n) is Some,
    ensures
        win_in_row(g, r, m) == win_in_row(g, r, n),
    decreases m - n,
{
    if n < m {
        lemma_win_in_row_keeps(g, r, n, m - 1);
    }
}

pub proof fn lemma_win_in_rows_keeps(g: FourGrid, n: int, m: int)
    requires
        n <= m,
        win_in_rows(g, n) is Some,
    ensures
        win_in_rows(g, m) == win_in_rows(g, n),
    decreases m - n,
{
    if n < m {
        lemma_win_in_rows_keeps(g, n, m - 1);
    }
}

pub proof fn lemma_open_columns_in_range(g: FourGrid, n: int)
    requires
        n <= 7,
    ensures
        forall|i: int| 0 <= i < open_columns(g, n).len() ==> (#[trigger] open_columns(g, n)[i]).column < 7,
    decreases n,
{
    if n > 0 {
        lemma_open_columns_in_range(g, n - 1);
        let a = open_columns(g, n - 1);
        let b: Seq<GameAction> = if g[5][n - 1] == Tile::Empty {
            seq![GameAction { column: (n - 1) as u8 }]
        } else {
            seq![]
        };
        assert forall|i: int| 0 <= i < (a + b).len() implies (#[trigger] (a + b)[i]).column < 7 by {
            if i < a.len() {
                assert((a + b)[i] == a[i]);
            } else {
                assert((a + b)[i] == b[i - a.len()]);
            }
        }
    }
}

pub proof fn lemma_disc_row_bound(row: Seq<Tile>, n: int)
    requires
        0 <= n,
    ensures
        -50 * n <= disc_row_score(row, n) <= 50 * n,
    decreases n,
{
    if n > 0 {
        lemma_disc_row_bound(row, n - 1);
    }
}

pub proof fn lemma_disc_grid_bound(g: FourGrid, n: int)
    requires
        0 <= n,
    ensures
        -350 * n <= disc_grid_score(g, n) <= 350 * n,
    decreases n,
{
    if n > 0 {
        lemma_disc_grid_bound(g, n - 1);
        lemma_disc_row_bound(g[n - 1], 7);
    }
}

pub proof fn lemma_triple_row_bound(g: FourGrid, r: int, n: int, dr: int, dc: int)
    requires
        0 <= n,
    ensures
        -800 * n <= triple_row_sum(g, r, n, dr, dc) <= 800 * n,
    decreases n,
{
    if n > 0 {
        lemma_triple_row_bound(g, r, n - 1, dr, dc);
    }
}

pub proof fn lemma_triple_sum_bound(g: FourGrid, lo: int, hi: int, ncols: int, dr: int, dc: int)
    requires
        lo <= hi,
        0 <= ncols <= 7,
    ensures
        -5600 * (hi - lo) <= triple_sum(g, lo, hi, ncols, dr, dc) <= 5600 * (hi - lo),
    decreases hi - lo,
{
    if hi > lo {
        lemma_triple_sum_bound(g, lo, hi - 1, ncols, dr, dc);
        lemma_triple_row_bound(g, hi - 1, ncols, dr, dc);
    }
}

/// A won or lost game scores beyond the heuristic score of any board.
pub proof fn lemma_win_dominates_heuristic(g: FourGrid)
    ensures
        -(FOUR_WIN as int) < heuristic_score(g) < FOUR_WIN as int,
{
    lemma_disc_grid_bound(g, 6);
    lemma_triple_sum_bound(g, 0, 6, 5, 0, 1);
    lemma_triple_sum_bound(g, 0, 4, 7, 1, 0);
    lemma_triple_sum_bound(g, 0, 4, 5, 1, 1);
    lemma_triple_sum_bound(g, 2, 6, 5, -1, 1);
}

/// Every action passes the turn to the other side.
pub proof fn lemma_action_passes_turn(s: FourView, a: GameAction)
    ensures
        s.applied(a).player == s.player.opponent(),
{
}

impl GameState for FourRow {
    type Action = GameAction;

    open spec fn actions_of(s: FourView) -> Seq<GameAction> {
        open_columns(s.grid, 7)
    }

    open spec fn apply_to(s: FourView, a: GameAction) -> FourView {
        s.applied(a)
    }

    open spec fn can_apply(s: FourView, a: GameAction) -> bool {
        a.column < 7
    }

    open spec fn terminal(s: FourView) -> bool {
        s.is_terminal()
    }

    open spec fn score(s: FourView) -> Option<i64> {
        Some(s.evaluation() as i64)
    }

    open spec fn valid(s: FourView) -> bool {
        wf_four(s.grid)
    }

    proof fn lemma_valid(&self) {
        self.lemma_grid_wf();
    }

    proof fn lemma_actions_applicable(s: FourView) {
        lemma_open_columns_in_range(s.grid, 7);
    }

    /// The columns whose top cell is empty, left to right.
    fn get_possible_actions(&self) -> (r: Vec<GameAction>) {
        let ghost g = self@.grid;
        let mut actions: Vec<GameAction> = Vec::new();
        let mut col: usize = 0;
        while col < BOARD_WIDTH
            invariant
                col <= 7,
                g == self@.grid,
                actions@ == open_columns(g, col as int),
            decreases 7 - col,
        {
            if self.board[BOARD_HEIGHT - 1][col] == Tile::Empty {
                actions.push(GameAction { column: col as u8 });
            }
            assert(actions@ =~= open_columns(g, col + 1));
            col += 1;
        }
        assert(actions@.map_values(|a: GameAction| a@) =~= actions@);
        actions
    }

    /// Drops a disc of the side to move into the column and passes the turn; a full
    /// column leaves the board as it is.
    fn apply_action(&self, action: &GameAction) -> (r: FourRow) {
        let ghost g = self@.grid;
        let mut new_board = *self;
        let col = action.column as usize;
        let mut row: usize = 0;
        let mut placed = false;
        while row < BOARD_HEIGHT && !placed
            invariant
                row <= 6,
                col < 7,
                g == self@.grid,
                new_board.current_player == self.current_player,
                !placed ==> new_board@.grid == g && landing_row(g, col as int, 0) == landing_row(g, col as int, row as int),
                placed ==> landing_row(g, col as int, 0) is Some && new_board@.grid == put(g, landing_row(g, col as int, 0)->0, col as int, self.current_player.tile_spec()),
            decreases 6 - row + if placed { 0int } else { 1int },
        {
            if new_board.board[row][col] == Tile::Empty {
                new_board.set(row, col, self.current_player.tile());
                placed = true;
            }
            row += 1;
        }
        new_board.current_player = self.current_player.switch();
        new_board
    }

    fn is_terminal(&self) -> (r: bool) {
        self.get_terminal() != GameResult::Ongoing
    }

    fn evaluate(&self) -> (r: Option<i64>) {
        match self.get_terminal() {
            GameResult::Win(Player::Player1) => Some(FOUR_WIN),
            GameResult::Win(Player::Player2) => Some(-FOUR_WIN),
            GameResult::Draw => Some(0),
            GameResult::Ongoing => Some(self.heuristic()),
        }
    }

    fn same_position(&self, other: &FourRow) -> (r: bool) {
        if self.current_player != other.current_player {
            return false;
        }
        let mut row: usize = 0;
        while row < BOARD_HEIGHT
            invariant
                row <= 6,
                forall|r: int, c: int| 0 <= r < row && 0 <= c < 7 ==> #[trigger] self@.grid[r][c] == other@.grid[r][c],
            decreases 6 - row,
        {
            let mut col: usize = 0;
            while col < BOARD_WIDTH
                invariant
                    row < 6,
                    col <= 7,
                    forall|r: int, c: int|
                        ((0 <= r < row && 0 <= c < 7) || (r == row && 0 <= c < col)) ==> #[trigger] self@.grid[r][c]
                            == other@.grid[r][c],
                decreases 7 - col,
            {
                if self.board[row][col] != other.board[row][col] {
                    assert(self@.grid[row as int][col as int] != other@.grid[row as int][col as int]);
                    return false;
                }
                col += 1;
            }
            row += 1;
        }
        proof {
            self.lemma_grid_wf();
            other.lemma_grid_wf();
            assert forall|r: int| 0 <= r < 6 implies #[trigger] self@.grid[r] =~= other@.grid[r] by {
                assert forall|c: int| 0 <= c < 7 implies self@.grid[r][c] == other@.grid[r][c] by {
                    assert(self@.grid[r][c] == other@.grid[r][c]);
                }
            }
            assert(self@.grid =~= other@.grid);
        }
        true
    }

    fn copy_position(&self) -> (r: FourRow) {
        *self
    }
}

/// A child has the other side to move and a grandchild the same side, so no position is
/// both.
pub proof fn lemma_four_plies_apart(s: FourView)
    ensures
        plies_apart::<FourRow>(s),
{
    assert forall|k: FourView| #[trigger] is_child::<FourRow>(s, k) implies !is_grandchild::<FourRow>(s, k) by {
        let i = choose|i: int| 0 <= i < FourRow::actions_of(s).len() && k == FourRow::apply_to(s, #[trigger] FourRow::actions_of(s)[i]);
        assert(k.player == s.player.opponent());
        if is_grandchild::<FourRow>(s, k) {
            let j = choose|j: int|
                0 <= j < FourRow::actions_of(s).len() && is_child::<FourRow>(FourRow::apply_to(s, #[trigger] FourRow::actions_of(s)[j]), k);
            let c = FourRow::apply_to(s, FourRow::actions_of(s)[j]);
            let l = choose|l: int| 0 <= l < FourRow::actions_of(c).len() && k == FourRow::apply_to(c, #[trigger] FourRow::actions_of(c)[l]);
            assert(k.player == s.player);
        }
    }
}

/// On every four-in-a-row position, a depth-two search with cutoffs and memo values the
/// position as plain minimax does.
pub proof fn lemma_four_search_matches_minimax(s: FourView, maximizing: bool)
    ensures
        search::<FourRow>(s, 2, maximizing, Map::empty(), i64::MIN, i64::MAX).node.evaluation
            == minimax_value::<FourRow>(s, 2, maximizing),
{
    lemma_four_plies_apart(s);
    lemma_pruning_keeps_value_at_depth_two::<FourRow>(s, maximizing);
}

} // verus!
