use vstd::prelude::*;

use crate::game::{GameState, Player};
use crate::minmax::{is_child, is_grandchild, minimax_value, plies_apart, search, lemma_pruning_keeps_value_at_depth_two};

verus! {

/// A cell of a checkers board.
#[derive(Debug, Clone, Copy, PartialEq, Eq, Hash, Structural)]
pub enum CheckersTile {
    Empty,
    Checker(Player),
    Queen(Player),
}

/// One elementary move `(from_row, from_col, to_row, to_col)`.
pub type Jump = (usize, usize, usize, usize);

/// A checkers position: the board (row 0 is Player1's home rank), the side to move,
/// and how many moves have been played since the last capture.
#[derive(Debug, Clone, Copy, PartialEq, Eq, Hash)]
pub struct CheckersBoard {
    pub board: [[CheckersTile; 8]; 8],
    pub current_player: Player,
    pub moves_without_capture: u32,
}

pub type Grid = Seq<Seq<CheckersTile>>;

pub open spec fn in_bounds(r: int, c: int) -> bool {
    0 <= r < 8 && 0 <= c < 8
}

/// An 8 by 8 grid.
pub open spec fn wf_grid(g: Grid) -> bool {
    g.len() == 8 && forall|r: int| 0 <= r < 8 ==> #[trigger] g[r].len() == 8
}

/// The tile at a cell; cells off the board read as empty.
pub open spec fn tile_of(g: Grid, r: int, c: int) -> CheckersTile {
    if in_bounds(r, c) {
        g[r][c]
    } else {
        CheckersTile::Empty
    }
}

pub open spec fn set_cell(g: Grid, r: int, c: int, t: CheckersTile) -> Grid {
    g.update(r, g[r].update(c, t))
}

pub open spec fn owner(t: CheckersTile) -> Option<Player> {
    match t {
        CheckersTile::Empty => None,
        CheckersTile::Checker(p) => Some(p),
        CheckersTile::Queen(p) => Some(p),
    }
}

/// Directions in which a piece moves and captures: forward diagonals for a checker
/// (up the rows for Player1, down for Player2), all four diagonals for a queen.
pub open spec fn step_dirs(t: CheckersTile) -> Seq<(i32, i32)> {
    match t {
        CheckersTile::Checker(Player::Player1) => seq![(1i32, -1i32), (1i32, 1i32)],
        CheckersTile::Checker(Player::Player2) => seq![(-1i32, -1i32), (-1i32, 1i32)],
        CheckersTile::Queen(_) => seq![(-1i32, -1i32), (-1i32, 1i32), (1i32, -1i32), (1i32, 1i32)],
        CheckersTile::Empty => seq![],
    }
}

pub open spec fn unit_dirs(dirs: Seq<(i32, i32)>) -> bool {
    forall|i: int|
        0 <= i < dirs.len() ==> (#[trigger] dirs[i].0 == 1 || dirs[i].0 == -1) && (dirs[i].1 == 1
            || dirs[i].1 == -1)
}

/// The capture from `(r, c)` in direction `d` when `p` is to move: an opponent piece on
/// the adjacent cell and an empty cell beyond it.
pub open spec fn capture_in(g: Grid, p: Player, r: int, c: int, d: (i32, i32)) -> Option<Jump> {
    let orow = r + d.0;
    let ocol = c + d.1;
    let lrow = orow + d.0;
    let lcol = ocol + d.1;
    if in_bounds(orow, ocol) && in_bounds(lrow, lcol) && owner(g[orow][ocol]) is Some
        && owner(g[orow][ocol]) != Some(p) && g[lrow][lcol] == CheckersTile::Empty {
        Some((r as usize, c as usize, lrow as usize, lcol as usize))
    } else {
        None
    }
}

/// A checker that lands on the far rank becomes a queen.
pub open spec fn promotion(piece: CheckersTile, tr: int) -> Option<CheckersTile> {
    if piece == CheckersTile::Checker(Player::Player1) && tr == 7 {
        Some(CheckersTile::Queen(Player::Player1))
    } else if piece == CheckersTile::Checker(Player::Player2) && tr == 0 {
        Some(CheckersTile::Queen(Player::Player2))
    } else {
        None
    }
}

/// The grid after the capturing jump `j`: the piece moves, the jumped cell is cleared,
/// and the piece is promoted if it reached the far rank.
pub open spec fn after_jump(g: Grid, j: Jump) -> Grid {
    let piece = g[j.0 as int][j.1 as int];
    let g1 = set_cell(set_cell(g, j.2 as int, j.3 as int, piece), j.0 as int, j.1 as int, CheckersTile::Empty);
    let g2 = set_cell(g1, (j.0 + j.2) / 2, (j.1 + j.3) / 2, CheckersTile::Empty);
    match promotion(piece, j.2 as int) {
        Some(q) => set_cell(g2, j.2 as int, j.3 as int, q),
        None => g2,
    }
}

pub open spec fn after_jumps(g: Grid, s: Seq<Jump>) -> Grid
    decreases s.len(),
{
    if s.len() == 0 {
        g
    } else {
        after_jump(after_jumps(g, s.drop_last()), s.last())
    }
}

/// Whether a tile is counted: any piece for `None`, the pieces of `p` for `Some(p)`.
pub open spec fn counted(t: CheckersTile, who: Option<Player>) -> bool {
    match who {
        None => t != CheckersTile::Empty,
        Some(p) => owner(t) == Some(p),
    }
}

pub open spec fn count_row(row: Seq<CheckersTile>, n: int, who: Option<Player>) -> nat
    decreases n,
{
    if n <= 0 {
        0
    } else {
        count_row(row, n - 1, who) + if counted(row[n - 1], who) { 1nat } else { 0nat }
    }
}

pub open spec fn count_grid(g: Grid, n: int, who: Option<Player>) -> nat
    decreases n,
{
    if n <= 0 {
        0
    } else {
        count_grid(g, n - 1, who) + count_row(g[n - 1], 8, who)
    }
}

/// Number of pieces on the grid.
pub open spec fn occupied(g: Grid) -> nat {
    count_grid(g, 8, None)
}

pub open spec fn ind(b: bool) -> int {
    if b { 1 } else { 0 }
}

pub proof fn lemma_count_row_update(row: Seq<CheckersTile>, n: int, c: int, t: CheckersTile, who: Option<Player>)
    requires
        0 <= c < row.len(),
        n <= row.len(),
    ensures
        count_row(row.update(c, t), n, who) == count_row(row, n, who) + if c < n {
            ind(counted(t, who)) - ind(counted(row[c], who))
        } else {
            0
        },
    decreases n,
{
    if n > 0 {
        lemma_count_row_update(row, n - 1, c, t, who);
    }
}

pub proof fn lemma_count_grid_update(g: Grid, n: int, r: int, c: int, t: CheckersTile, who: Option<Player>)
    requires
        wf_grid(g),
        in_bounds(r, c),
        n <= 8,
    ensures
        count_grid(set_cell(g, r, c, t), n, who) == count_grid(g, n, who) + if r < n {
            ind(counted(t, who)) - ind(counted(g[r][c], who))
        } else {
            0
        },
    decreases n,
{
    if n > 0 {
        lemma_count_grid_update(g, n - 1, r, c, t, who);
        if n - 1 == r {
            lemma_count_row_update(g[r], 8, c, t, who);
        }
    }
}

/// Setting one cell changes the number of pieces by what was and what is there.
pub proof fn lemma_occupied_update(g: Grid, r: int, c: int, t: CheckersTile)
    requires
        wf_grid(g),
        in_bounds(r, c),
    ensures
        wf_grid(set_cell(g, r, c, t)),
        occupied(set_cell(g, r, c, t)) == occupied(g) + ind(t != CheckersTile::Empty) - ind(
            g[r][c] != CheckersTile::Empty,
        ),
{
    lemma_count_grid_update(g, 8, r, c, t, None);
}

/// A capture removes one piece from the grid.
pub proof fn lemma_capture_shrinks(g: Grid, p: Player, r: int, c: int, d: (i32, i32))
    requires
        wf_grid(g),
        in_bounds(r, c),
        (d.0 == 1 || d.0 == -1) && (d.1 == 1 || d.1 == -1),
        capture_in(g, p, r, c, d) is Some,
    ensures
        wf_grid(after_jump(g, capture_in(g, p, r, c, d)->0)),
        occupied(after_jump(g, capture_in(g, p, r, c, d)->0)) + 1 == occupied(g),
{
    let j = capture_in(g, p, r, c, d)->0;
    let piece = g[r][c];
    let (tr, tc) = (r + 2 * d.0, c + 2 * d.1);
    let (mr, mc) = (r + d.0, c + d.1);
    assert((j.0 + j.2) / 2 == mr && (j.1 + j.3) / 2 == mc);
    let g0 = set_cell(g, tr, tc, piece);
    lemma_occupied_update(g, tr, tc, piece);
    let g1 = set_cell(g0, r, c, CheckersTile::Empty);
    lemma_occupied_update(g0, r, c, CheckersTile::Empty);
    let g2 = set_cell(g1, mr, mc, CheckersTile::Empty);
    lemma_occupied_update(g1, mr, mc, CheckersTile::Empty);
    if let Some(q) = promotion(piece, tr) {
        lemma_occupied_update(g2, tr, tc, q);
    }
}

pub open spec fn has_capture(g: Grid, p: Player, r: int, c: int, dirs: Seq<(i32, i32)>) -> bool {
    exists|i: int| 0 <= i < dirs.len() && (#[trigger] capture_in(g, p, r, c, dirs[i])) is Some
}

/// Every maximal capture chain of the piece on `(r, c)`, each one extending `prefix`.
/// A chain ends only where no further capture is available from its landing cell.
pub open spec fn chains(g: Grid, p: Player, r: int, c: int, prefix: Seq<Jump>) -> Seq<Seq<Jump>>
    decreases occupied(g), 1nat, 0nat,
    when wf_grid(g) && in_bounds(r, c)
{
    let dirs = step_dirs(tile_of(g, r, c));
    let found = chains_dirs(g, p, r, c, prefix, dirs);
    if has_capture(g, p, r, c, dirs) {
        found
    } else if prefix.len() > 0 {
        seq![prefix]
    } else {
        seq![]
    }
}

/// The chains that begin with a capture in one of `dirs`, in the order of `dirs`.
pub open spec fn chains_dirs(
    g: Grid,
    p: Player,
    r: int,
    c: int,
    prefix: Seq<Jump>,
    dirs: Seq<(i32, i32)>,
) -> Seq<Seq<Jump>>
    decreases occupied(g), 0nat, dirs.len(),
    when wf_grid(g) && in_bounds(r, c) && unit_dirs(dirs)
{
    if dirs.len() == 0 {
        seq![]
    } else {
        let earlier = chains_dirs(g, p, r, c, prefix, dirs.drop_last());
        match capture_in(g, p, r, c, dirs.last()) {
            Some(j) => {
                proof {
                    lemma_capture_shrinks(g, p, r, c, dirs.last());
                }
                earlier + chains(after_jump(g, j), p, j.2 as int, j.3 as int, prefix.push(j))
            },
            None => earlier,
        }
    }
}

pub proof fn lemma_step_dirs_unit(t: CheckersTile)
    ensures
        unit_dirs(step_dirs(t)),
{
}

/// Where no direction captures, no chain starts.
pub proof fn lemma_chains_dirs_none(g: Grid, p: Player, r: int, c: int, prefix: Seq<Jump>, dirs: Seq<(i32, i32)>)
    requires
        wf_grid(g),
        in_bounds(r, c),
        unit_dirs(dirs),
        !has_capture(g, p, r, c, dirs),
    ensures
        chains_dirs(g, p, r, c, prefix, dirs) == Seq::<Seq<Jump>>::empty(),
    decreases dirs.len(),
{
    if dirs.len() > 0 {
        let rest = dirs.drop_last();
        assert(unit_dirs(rest));
        assert(!has_capture(g, p, r, c, rest)) by {
            if has_capture(g, p, r, c, rest) {
                let k = choose|k: int| 0 <= k < rest.len() && (#[trigger] capture_in(g, p, r, c, rest[k])) is Some;
                assert(dirs[k] == rest[k]);
            }
        }
        assert(capture_in(g, p, r, c, dirs[dirs.len() - 1]) is None);
        lemma_chains_dirs_none(g, p, r, c, prefix, rest);
    }
}

/// The quiet moves of the piece on `(r, c)` in the directions `dirs`: one step into an
/// empty cell.
pub open spec fn quiet_dirs(g: Grid, r: int, c: int, dirs: Seq<(i32, i32)>) -> Seq<Jump>
    decreases dirs.len(),
{
    if dirs.len() == 0 {
        seq![]
    } else {
        let d = dirs.last();
        let nr = r + d.0;
        let nc = c + d.1;
        quiet_dirs(g, r, c, dirs.drop_last()) + if in_bounds(nr, nc) && g[nr][nc] == CheckersTile::Empty {
            seq![(r as usize, c as usize, nr as usize, nc as usize)]
        } else {
            seq![]
        }
    }
}

pub open spec fn regular_moves(g: Grid, r: int, c: int) -> Seq<Jump> {
    quiet_dirs(g, r, c, step_dirs(tile_of(g, r, c)))
}

/// The moves of the piece on `(r, c)` when `p` is to move: its capture chains if it has
/// any, else its quiet moves, each as a one-jump sequence.
pub open spec fn piece_moves(g: Grid, p: Player, r: int, c: int) -> Seq<Seq<Jump>> {
    if owner(tile_of(g, r, c)) == Some(p) {
        let caps = chains(g, p, r, c, seq![]);
        if caps.len() > 0 {
            caps
        } else {
            regular_moves(g, r, c).map_values(|j: Jump| seq![j])
        }
    } else {
        seq![]
    }
}

pub open spec fn cell_moves(g: Grid, p: Player, r: int, c: int) -> Seq<Seq<Jump>> {
    if owner(g[r][c]) == Some(p) {
        piece_moves(g, p, r, c)
    } else {
        seq![]
    }
}

/// The moves of the pieces on the first `n` cells of row `r`.
pub open spec fn row_moves(g: Grid, p: Player, r: int, n: int) -> Seq<Seq<Jump>>
    decreases n,
{
    if n <= 0 {
        seq![]
    } else {
        row_moves(g, p, r, n - 1) + cell_moves(g, p, r, n - 1)
    }
}

/// The moves of the pieces on the first `n` rows, row by row.
pub open spec fn board_moves(g: Grid, p: Player, n: int) -> Seq<Seq<Jump>>
    decreases n,
{
    if n <= 0 {
        seq![]
    } else {
        board_moves(g, p, n - 1) + row_moves(g, p, n - 1, 8)
    }
}

pub open spec fn abs_diff(a: usize, b: usize) -> int {
    if a >= b { a - b } else { b - a }
}

/// A jump over one cell: two rows and two columns.
pub open spec fn spans_two(j: Jump) -> bool {
    abs_diff(j.2, j.0) == 2 && abs_diff(j.3, j.1) == 2
}

/// A capturing action: more than one jump, or a single jump over a cell.
pub open spec fn is_capture(a: Seq<Jump>) -> bool {
    a.len() > 1 || (a.len() == 1 && spans_two(a[0]))
}

pub open spec fn captures_in(s: Seq<Seq<Jump>>) -> Seq<Seq<Jump>>
    decreases s.len(),
{
    if s.len() == 0 {
        seq![]
    } else {
        captures_in(s.drop_last()) + if is_capture(s.last()) { seq![s.last()] } else { seq![] }
    }
}

pub open spec fn quiets_in(s: Seq<Seq<Jump>>) -> Seq<Seq<Jump>>
    decreases s.len(),
{
    if s.len() == 0 {
        seq![]
    } else {
        quiets_in(s.drop_last()) + if is_capture(s.last()) { seq![] } else { seq![s.last()] }
    }
}

/// The legal actions when `p` is to move: every capture if there is one (captures are
/// mandatory), else every quiet move; pieces taken row by row, column by column.
pub open spec fn legal_actions(g: Grid, p: Player) -> Seq<Seq<Jump>> {
    let all = board_moves(g, p, 8);
    if captures_in(all).len() > 0 {
        captures_in(all)
    } else {
        quiets_in(all)
    }
}

/// Whether some piece of `who` has a move when `p` is to move.
pub open spec fn any_moves(g: Grid, p: Player, who: Player) -> bool {
    exists|r: int, c: int|
        in_bounds(r, c) && owner(g[r][c]) == Some(who) && (#[trigger] piece_moves(g, p, r, c)).len() > 0
}

/// The grid after one jump of an action: the piece moves, a jumped cell is cleared,
/// and a checker reaching the far rank is promoted.
pub open spec fn play_step(g: Grid, j: Jump) -> Grid {
    let piece = g[j.0 as int][j.1 as int];
    let g1 = set_cell(set_cell(g, j.2 as int, j.3 as int, piece), j.0 as int, j.1 as int, CheckersTile::Empty);
    let g2 = if spans_two(j) {
        set_cell(g1, (j.0 + j.2) / 2, (j.1 + j.3) / 2, CheckersTile::Empty)
    } else {
        g1
    };
    match promotion(piece, j.2 as int) {
        Some(q) => set_cell(g2, j.2 as int, j.3 as int, q),
        None => g2,
    }
}

pub open spec fn play(g: Grid, a: Seq<Jump>) -> Grid
    decreases a.len(),
{
    if a.len() == 0 {
        g
    } else {
        play_step(play(g, a.drop_last()), a.last())
    }
}

pub open spec fn captures_any(a: Seq<Jump>) -> bool {
    exists|i: int| 0 <= i < a.len() && spans_two(#[trigger] a[i])
}

/// What the heuristic gives a tile on row `r`, in half-points: a checker is worth 20
/// plus one per row advanced, a queen 60; Player1 counts up, Player2 down.
pub open spec fn tile_score(t: CheckersTile, r: int) -> int {
    match t {
        CheckersTile::Checker(Player::Player1) => 20 + r,
        CheckersTile::Checker(Player::Player2) => -(20 + (7 - r)),
        CheckersTile::Queen(Player::Player1) => 60,
        CheckersTile::Queen(Player::Player2) => -60,
        CheckersTile::Empty => 0,
    }
}

pub open spec fn row_score(row: Seq<CheckersTile>, r: int, n: int) -> int
    decreases n,
{
    if n <= 0 {
        0
    } else {
        row_score(row, r, n - 1) + tile_score(row[n - 1], r)
    }
}

pub open spec fn grid_score(g: Grid, n: int) -> int
    decreases n,
{
    if n <= 0 {
        0
    } else {
        grid_score(g, n - 1) + row_score(g[n - 1], n - 1, 8)
    }
}

/// Score of a finished game won by Player1 (its negation: won by Player2), in
/// half-points: a thousand points. It exceeds the heuristic score of every board with at
/// most twelve pieces a side.
pub const CHECKERS_WIN: i64 = 2000;

/// The abstract value of a checkers position.
pub struct CheckersView {
    pub grid: Grid,
    pub player: Player,
    pub quiet: int,
}

pub open spec fn pieces(g: Grid, who: Player) -> nat {
    count_grid(g, 8, Some(who))
}

impl CheckersView {
    pub open spec fn is_terminal(self) -> bool {
        pieces(self.grid, Player::Player1) == 0 || pieces(self.grid, Player::Player2) == 0
            || self.quiet >= 50 || !any_moves(self.grid, self.player, self.player)
    }

    /// Terminal positions score a win, a loss or 0; others the heuristic.
    pub open spec fn evaluation(self) -> int {
        if self.is_terminal() {
            if pieces(self.grid, Player::Player1) == 0 {
                -(CHECKERS_WIN as int)
            } else if pieces(self.grid, Player::Player2) == 0 {
                CHECKERS_WIN as int
            } else {
                0
            }
        } else {
            grid_score(self.grid, 8)
        }
    }

    pub open spec fn applied(self, a: Seq<Jump>) -> CheckersView {
        if a.len() == 0 {
            self
        } else {
            CheckersView {
                grid: play(self.grid, a),
                player: self.player.opponent(),
                quiet: if captures_any(a) { 0 } else { self.quiet + 1 },
            }
        }
    }
}

/// The starting layout: Player1 checkers on the dark cells of rows 0 to 2, Player2
/// checkers on those of rows 5 to 7.
pub open spec fn initial_tile(r: int, c: int) -> CheckersTile {
    if (r + c) % 2 == 0 && r < 3 {
        CheckersTile::Checker(Player::Player1)
    } else if (r + c) % 2 == 0 && r > 4 {
        CheckersTile::Checker(Player::Player2)
    } else {
        CheckersTile::Empty
    }
}

/// Every jump in bounds and over a cell.
pub open spec fn chain_ok(s: Seq<Jump>) -> bool {
    forall|i: int| 0 <= i < s.len() ==> jump_in_bounds(#[trigger] s[i]) && spans_two(s[i])
}

/// A non-empty action whose jumps stay on the board.
pub open spec fn action_ok(a: Seq<Jump>) -> bool {
    a.len() > 0 && forall|i: int| 0 <= i < a.len() ==> jump_in_bounds(#[trigger] a[i])
}

pub proof fn lemma_capture_ok(g: Grid, p: Player, r: int, c: int, d: (i32, i32))
    requires
        in_bounds(r, c),
        (d.0 == 1 || d.0 == -1) && (d.1 == 1 || d.1 == -1),
        capture_in(g, p, r, c, d) is Some,
    ensures
        jump_in_bounds(capture_in(g, p, r, c, d)->0),
        spans_two(capture_in(g, p, r, c, d)->0),
        (capture_in(g, p, r, c, d)->0).0 == r,
        (capture_in(g, p, r, c, d)->0).1 == c,
{
}

/// Chains extend their prefix, are never empty, and jump over a cell each time.
pub proof fn lemma_chains_ok(g: Grid, p: Player, r: int, c: int, prefix: Seq<Jump>)
    requires
        wf_grid(g),
        in_bounds(r, c),
        chain_ok(prefix),
    ensures
        forall|k: int|
            0 <= k < chains(g, p, r, c, prefix).len() ==> {
                let s = #[trigger] chains(g, p, r, c, prefix)[k];
                &&& chain_ok(s)
                &&& s.len() > 0
                &&& s.len() >= prefix.len()
            },
    decreases occupied(g), 1nat, 0nat,
{
    let dirs = step_dirs(tile_of(g, r, c));
    lemma_step_dirs_unit(tile_of(g, r, c));
    lemma_chains_dirs_ok(g, p, r, c, prefix, dirs);
    let all = chains(g, p, r, c, prefix);
    if has_capture(g, p, r, c, dirs) {
        assert(all == chains_dirs(g, p, r, c, prefix, dirs));
    } else if prefix.len() > 0 {
        assert(all == seq![prefix]);
        assert forall|k: int| 0 <= k < all.len() implies {
            let s = #[trigger] all[k];
            &&& chain_ok(s)
            &&& s.len() > 0
            &&& s.len() >= prefix.len()
        } by {
            assert(all[k] == prefix);
        }
    } else {
        assert(all.len() == 0);
    }
}

pub proof fn lemma_chains_dirs_ok(g: Grid, p: Player, r: int, c: int, prefix: Seq<Jump>, dirs: Seq<(i32, i32)>)
    requires
        wf_grid(g),
        in_bounds(r, c),
        unit_dirs(dirs),
        chain_ok(prefix),
    ensures
        forall|k: int|
            0 <= k < chains_dirs(g, p, r, c, prefix, dirs).len() ==> {
                let s = #[trigger] chains_dirs(g, p, r, c, prefix, dirs)[k];
                &&& chain_ok(s)
                &&& s.len() > 0
                &&& s.len() >= prefix.len()
            },
    decreases occupied(g), 0nat, dirs.len(),
{
    if dirs.len() > 0 {
        let rest = dirs.drop_last();
        assert(unit_dirs(rest));
        lemma_chains_dirs_ok(g, p, r, c, prefix, rest);
        let d = dirs.last();
        if let Some(j) = capture_in(g, p, r, c, d) {
            lemma_capture_shrinks(g, p, r, c, d);
            lemma_capture_ok(g, p, r, c, d);
            let np = prefix.push(j);
            assert(chain_ok(np)) by {
                assert forall|i: int| 0 <= i < np.len() implies jump_in_bounds(#[trigger] np[i]) && spans_two(np[i]) by {
                    if i < prefix.len() {
                        assert(np[i] == prefix[i]);
                    }
                }
            }
            lemma_chains_ok(after_jump(g, j), p, j.2 as int, j.3 as int, np);
            let a = chains_dirs(g, p, r, c, prefix, rest);
            let b = chains(after_jump(g, j), p, j.2 as int, j.3 as int, np);
            assert(chains_dirs(g, p, r, c, prefix, dirs) == a + b);
            assert forall|k: int| 0 <= k < (a + b).len() implies {
                let s = #[trigger] (a + b)[k];
                &&& chain_ok(s)
                &&& s.len() > 0
                &&& s.len() >= prefix.len()
            } by {
                if k < a.len() {
                    assert((a + b)[k] == a[k]);
                } else {
                    assert((a + b)[k] == b[k - a.len()]);
                }
            }
        } else {
            assert(chains_dirs(g, p, r, c, prefix, dirs) == chains_dirs(g, p, r, c, prefix, rest));
        }
    }
}

/// A piece with a capture, or a chain already begun, has at least one chain.
pub proof fn lemma_chains_nonempty(g: Grid, p: Player, r: int, c: int, prefix: Seq<Jump>)
    requires
        wf_grid(g),
        in_bounds(r, c),
        prefix.len() > 0 || has_capture(g, p, r, c, step_dirs(tile_of(g, r, c))),
    ensures
        chains(g, p, r, c, prefix).len() > 0,
    decreases occupied(g), 1nat, 0nat,
{
    let dirs = step_dirs(tile_of(g, r, c));
    lemma_step_dirs_unit(tile_of(g, r, c));
    if has_capture(g, p, r, c, dirs) {
        lemma_chains_dirs_nonempty(g, p, r, c, prefix, dirs);
    }
}

pub proof fn lemma_chains_dirs_nonempty(g: Grid, p: Player, r: int, c: int, prefix: Seq<Jump>, dirs: Seq<(i32, i32)>)
    requires
        wf_grid(g),
        in_bounds(r, c),
        unit_dirs(dirs),
        has_capture(g, p, r, c, dirs),
    ensures
        chains_dirs(g, p, r, c, prefix, dirs).len() > 0,
    decreases occupied(g), 0nat, dirs.len(),
{
    let rest = dirs.drop_last();
    assert(unit_dirs(rest));
    let d = dirs.last();
    if let Some(j) = capture_in(g, p, r, c, d) {
        lemma_capture_shrinks(g, p, r, c, d);
        lemma_capture_ok(g, p, r, c, d);
        lemma_chains_nonempty(after_jump(g, j), p, j.2 as int, j.3 as int, prefix.push(j));
    } else {
        let k = choose|k: int| 0 <= k < dirs.len() && (#[trigger] capture_in(g, p, r, c, dirs[k])) is Some;
        assert(rest[k] == dirs[k]);
        lemma_chains_dirs_nonempty(g, p, r, c, prefix, rest);
    }
}

pub proof fn lemma_quiet_dirs_ok(g: Grid, r: int, c: int, dirs: Seq<(i32, i32)>)
    requires
        in_bounds(r, c),
    ensures
        forall|k: int| 0 <= k < quiet_dirs(g, r, c, dirs).len() ==> jump_in_bounds(#[trigger] quiet_dirs(g, r, c, dirs)[k]),
    decreases dirs.len(),
{
    if dirs.len() > 0 {
        let rest = dirs.drop_last();
        lemma_quiet_dirs_ok(g, r, c, rest);
        let a = quiet_dirs(g, r, c, rest);
        let d = dirs.last();
        let nr = r + d.0;
        let nc = c + d.1;
        let b: Seq<Jump> = if in_bounds(nr, nc) && g[nr][nc] == CheckersTile::Empty {
            seq![(r as usize, c as usize, nr as usize, nc as usize)]
        } else {
            seq![]
        };
        assert(quiet_dirs(g, r, c, dirs) == a + b);
        assert forall|k: int| 0 <= k < (a + b).len() implies jump_in_bounds(#[trigger] (a + b)[k]) by {
            if k < a.len() {
                assert((a + b)[k] == a[k]);
            } else {
                assert((a + b)[k] == b[k - a.len()]);
            }
        }
    }
}

pub proof fn lemma_piece_moves_ok(g: Grid, p: Player, r: int, c: int)
    requires
        wf_grid(g),
        in_bounds(r, c),
    ensures
        forall|k: int| 0 <= k < piece_moves(g, p, r, c).len() ==> action_ok(#[trigger] piece_moves(g, p, r, c)[k]),
{
    lemma_chains_ok(g, p, r, c, seq![]);
    lemma_quiet_dirs_ok(g, r, c, step_dirs(tile_of(g, r, c)));
    let caps = chains(g, p, r, c, seq![]);
    let q = regular_moves(g, r, c);
    assert forall|k: int| 0 <= k < piece_moves(g, p, r, c).len() implies action_ok(#[trigger] piece_moves(g, p, r, c)[k]) by {
        if caps.len() == 0 && owner(tile_of(g, r, c)) == Some(p) {
            assert(piece_moves(g, p, r, c) == q.map_values(|j: Jump| seq![j]));
            assert(piece_moves(g, p, r, c)[k] == seq![q[k]]);
            assert(jump_in_bounds(q[k]));
            assert(seq![q[k]][0] == q[k]);
        } else if owner(tile_of(g, r, c)) == Some(p) {
            let s = caps[k];
            assert(chain_ok(s));
            assert(s.len() > 0);
            assert(forall|i: int| 0 <= i < s.len() ==> jump_in_bounds(#[trigger] s[i]));
        }
    }
}

pub proof fn lemma_concat_ok(a: Seq<Seq<Jump>>, b: Seq<Seq<Jump>>)
    requires
        forall|k: int| 0 <= k < a.len() ==> action_ok(#[trigger] a[k]),
        forall|k: int| 0 <= k < b.len() ==> action_ok(#[trigger] b[k]),
    ensures
        forall|k: int| 0 <= k < (a + b).len() ==> action_ok(#[trigger] (a + b)[k]),
{
    assert forall|k: int| 0 <= k < (a + b).len() implies action_ok(#[trigger] (a + b)[k]) by {
        if k < a.len() {
            assert((a + b)[k] == a[k]);
        } else {
            assert((a + b)[k] == b[k - a.len()]);
        }
    }
}

pub proof fn lemma_row_moves_ok(g: Grid, p: Player, r: int, n: int)
    requires
        wf_grid(g),
        0 <= r < 8,
        n <= 8,
    ensures
        forall|k: int| 0 <= k < row_moves(g, p, r, n).len() ==> action_ok(#[trigger] row_moves(g, p, r, n)[k]),
    decreases n,
{
    if n > 0 {
        lemma_row_moves_ok(g, p, r, n - 1);
        lemma_piece_moves_ok(g, p, r, n - 1);
        lemma_concat_ok(row_moves(g, p, r, n - 1), cell_moves(g, p, r, n - 1));
    }
}

pub proof fn lemma_board_moves_ok(g: Grid, p: Player, n: int)
    requires
        wf_grid(g),
        n <= 8,
    ensures
        forall|k: int| 0 <= k < board_moves(g, p, n).len() ==> action_ok(#[trigger] board_moves(g, p, n)[k]),
    decreases n,
{
    if n > 0 {
        lemma_board_moves_ok(g, p, n - 1);
        lemma_row_moves_ok(g, p, n - 1, 8);
        lemma_concat_ok(board_moves(g, p, n - 1), row_moves(g, p, n - 1, 8));
    }
}

pub proof fn lemma_filters_ok(s: Seq<Seq<Jump>>)
    requires
        forall|k: int| 0 <= k < s.len() ==> action_ok(#[trigger] s[k]),
    ensures
        forall|k: int| 0 <= k < captures_in(s).len() ==> action_ok(#[trigger] captures_in(s)[k]),
        forall|k: int| 0 <= k < quiets_in(s).len() ==> action_ok(#[trigger] quiets_in(s)[k]),
        forall|k: int| 0 <= k < captures_in(s).len() ==> is_capture(#[trigger] captures_in(s)[k]),
    decreases s.len(),
{
    if s.len() > 0 {
        let t = s.drop_last();
        assert forall|k: int| 0 <= k < t.len() implies action_ok(#[trigger] t[k]) by {
            assert(t[k] == s[k]);
        }
        lemma_filters_ok(t);
        let last = s.last();
        assert(action_ok(s[s.len() - 1]));
        lemma_concat_ok(captures_in(t), if is_capture(last) { seq![last] } else { seq![] });
        lemma_concat_ok(quiets_in(t), if is_capture(last) { seq![] } else { seq![last] });
        let a = captures_in(t);
        let b: Seq<Seq<Jump>> = if is_capture(last) { seq![last] } else { seq![] };
        assert forall|k: int| 0 <= k < (a + b).len() implies is_capture(#[trigger] (a + b)[k]) by {
            if k < a.len() {
                assert((a + b)[k] == a[k]);
            } else {
                assert((a + b)[k] == b[k - a.len()]);
            }
        }
    }
}

/// Every legal action is non-empty and stays on the board.
pub proof fn lemma_legal_actions_ok(g: Grid, p: Player)
    requires
        wf_grid(g),
    ensures
        forall|k: int| 0 <= k < legal_actions(g, p).len() ==> action_ok(#[trigger] legal_actions(g, p)[k]),
{
    lemma_board_moves_ok(g, p, 8);
    lemma_filters_ok(board_moves(g, p, 8));
}

pub proof fn lemma_row_score_bound(row: Seq<CheckersTile>, r: int, n: int)
    requires
        0 <= r < 8,
    ensures
        -60 * count_row(row, n, Some(Player::Player2)) <= row_score(row, r, n) <= 60 * count_row(
            row,
            n,
            Some(Player::Player1),
        ),
    decreases n,
{
    if n > 0 {
        lemma_row_score_bound(row, r, n - 1);
    }
}

pub proof fn lemma_grid_score_bound(g: Grid, n: int)
    requires
        n <= 8,
    ensures
        -60 * count_grid(g, n, Some(Player::Player2)) <= grid_score(g, n) <= 60 * count_grid(
            g,
            n,
            Some(Player::Player1),
        ),
    decreases n,
{
    if n > 0 {
        lemma_grid_score_bound(g, n - 1);
        lemma_row_score_bound(g[n - 1], n - 1, 8);
    }
}

/// A won or lost game scores beyond the heuristic score of every board a game can reach,
/// one with at most twelve pieces a side: the heuristic stays within 60 half-points per
/// piece.
pub proof fn lemma_win_dominates_heuristic(g: Grid)
    requires
        pieces(g, Player::Player1) <= 12,
        pieces(g, Player::Player2) <= 12,
    ensures
        -(CHECKERS_WIN as int) < grid_score(g, 8) < CHECKERS_WIN as int,
{
    lemma_grid_score_bound(g, 8);
}

/// Every legal action passes the turn to the other side exactly once, whatever the
/// length of its capture chain.
pub proof fn lemma_action_passes_turn(s: CheckersView, i: int)
    requires
        wf_grid(s.grid),
        0 <= i < legal_actions(s.grid, s.player).len(),
    ensures
        s.applied(legal_actions(s.grid, s.player)[i]).player == s.player.opponent(),
{
    lemma_legal_actions_ok(s.grid, s.player);
    assert(action_ok(legal_actions(s.grid, s.player)[i]));
}

pub proof fn lemma_captures_in_concat(a: Seq<Seq<Jump>>, b: Seq<Seq<Jump>>)
    ensures
        captures_in(a + b) == captures_in(a) + captures_in(b),
    decreases b.len(),
{
    if b.len() == 0 {
        assert(a + b =~= a);
        assert(captures_in(b) =~= Seq::<Seq<Jump>>::empty());
        assert(captures_in(a) + captures_in(b) =~= captures_in(a));
    } else {
        let b0 = b.drop_last();
        lemma_captures_in_concat(a, b0);
        assert((a + b).drop_last() =~= a + b0);
        assert((a + b).last() == b.last());
        let tail: Seq<Seq<Jump>> = if is_capture(b.last()) { seq![b.last()] } else { seq![] };
        assert(captures_in(a) + captures_in(b0) + tail =~= captures_in(a) + (captures_in(b0) + tail));
    }
}

pub proof fn lemma_captures_in_all(s: Seq<Seq<Jump>>)
    requires
        forall|k: int| 0 <= k < s.len() ==> is_capture(#[trigger] s[k]),
    ensures
        captures_in(s).len() == s.len(),
    decreases s.len(),
{
    if s.len() > 0 {
        let t = s.drop_last();
        assert forall|k: int| 0 <= k < t.len() implies is_capture(#[trigger] t[k]) by {
            assert(t[k] == s[k]);
        }
        lemma_captures_in_all(t);
        assert(is_capture(s[s.len() - 1]));
    }
}

pub proof fn lemma_row_captures_grow(g: Grid, p: Player, r: int, c: int, n: int)
    requires
        0 <= c < n,
    ensures
        captures_in(row_moves(g, p, r, n)).len() >= captures_in(cell_moves(g, p, r, c)).len(),
    decreases n,
{
    lemma_captures_in_concat(row_moves(g, p, r, n - 1), cell_moves(g, p, r, n - 1));
    if n - 1 > c {
        lemma_row_captures_grow(g, p, r, c, n - 1);
    }
}

pub proof fn lemma_board_captures_grow(g: Grid, p: Player, r: int, c: int, n: int)
    requires
        0 <= r < n,
        0 <= c < 8,
    ensures
        captures_in(board_moves(g, p, n)).len() >= captures_in(cell_moves(g, p, r, c)).len(),
    decreases n,
{
    lemma_captures_in_concat(board_moves(g, p, n - 1), row_moves(g, p, n - 1, 8));
    if n - 1 > r {
        lemma_board_captures_grow(g, p, r, c, n - 1);
    } else {
        lemma_row_captures_grow(g, p, r, c, 8);
    }
}

/// Captures are mandatory: when some piece of the side to move can capture, there is
/// at least one legal action, and every legal action captures, each of its jumps
/// going over a cell (two rows and two columns).
pub proof fn lemma_mandatory_capture(g: Grid, p: Player, r: int, c: int)
    requires
        wf_grid(g),
        in_bounds(r, c),
        owner(g[r][c]) == Some(p),
        has_capture(g, p, r, c, step_dirs(g[r][c])),
    ensures
        legal_actions(g, p).len() > 0,
        forall|k: int| 0 <= k < legal_actions(g, p).len() ==> is_capture(#[trigger] legal_actions(g, p)[k]),
        forall|k: int| 0 <= k < legal_actions(g, p).len() ==> chain_ok(#[trigger] legal_actions(g, p)[k]),
{
    let chs = chains(g, p, r, c, seq![]);
    lemma_chains_nonempty(g, p, r, c, seq![]);
    lemma_chains_ok(g, p, r, c, seq![]);
    assert forall|k: int| 0 <= k < chs.len() implies is_capture(#[trigger] chs[k]) by {
        let s = chs[k];
        assert(chain_ok(s) && s.len() > 0);
        if s.len() == 1 {
            assert(spans_two(s[0]));
        }
    }
    assert(cell_moves(g, p, r, c) == chs);
    lemma_captures_in_all(chs);
    lemma_board_captures_grow(g, p, r, c, 8);
    lemma_board_moves_ok(g, p, 8);
    lemma_filters_ok(board_moves(g, p, 8));
    lemma_board_moves_stop(g, p, 8);
    lemma_captures_in_stop(g, p, board_moves(g, p, 8));
    assert(captures_in(cell_moves(g, p, r, c)).len() == chs.len());
    assert(captures_in(board_moves(g, p, 8)).len() > 0);
    assert(legal_actions(g, p) == captures_in(board_moves(g, p, 8)));
    assert forall|k: int| 0 <= k < legal_actions(g, p).len() implies chain_ok(#[trigger] legal_actions(g, p)[k]) by {
        assert(is_capture(captures_in(board_moves(g, p, 8))[k]));
        assert(stops_when_done(g, p, legal_actions(g, p)[k]));
    }
}

/// No capture is left for the piece that ended the jumps `s` on `g`.
pub open spec fn chain_ended(g: Grid, p: Player, s: Seq<Jump>) -> bool {
    let h = after_jumps(g, s);
    let r = s.last().2 as int;
    let c = s.last().3 as int;
    !has_capture(h, p, r, c, step_dirs(tile_of(h, r, c)))
}

pub proof fn lemma_chains_maximal(g0: Grid, g: Grid, p: Player, r: int, c: int, prefix: Seq<Jump>)
    requires
        wf_grid(g),
        in_bounds(r, c),
        g == after_jumps(g0, prefix),
        prefix.len() > 0 ==> prefix.last().2 == r && prefix.last().3 == c,
    ensures
        forall|k: int| 0 <= k < chains(g, p, r, c, prefix).len() ==> chain_ended(g0, p, #[trigger] chains(g, p, r, c, prefix)[k]),
    decreases occupied(g), 1nat, 0nat,
{
    let dirs = step_dirs(tile_of(g, r, c));
    lemma_step_dirs_unit(tile_of(g, r, c));
    lemma_chains_dirs_maximal(g0, g, p, r, c, prefix, dirs);
    let all = chains(g, p, r, c, prefix);
    if has_capture(g, p, r, c, dirs) {
        assert(all == chains_dirs(g, p, r, c, prefix, dirs));
    } else if prefix.len() == 0 {
        assert(all.len() == 0);
    } else {
        assert(all == seq![prefix]);
        assert(after_jumps(g0, prefix) == g);
        assert forall|k: int| 0 <= k < all.len() implies chain_ended(g0, p, #[trigger] all[k]) by {
            assert(all[k] == prefix);
        }
    }
}

pub proof fn lemma_chains_dirs_maximal(
    g0: Grid,
    g: Grid,
    p: Player,
    r: int,
    c: int,
    prefix: Seq<Jump>,
    dirs: Seq<(i32, i32)>,
)
    requires
        wf_grid(g),
        in_bounds(r, c),
        unit_dirs(dirs),
        g == after_jumps(g0, prefix),
    ensures
        forall|k: int|
            0 <= k < chains_dirs(g, p, r, c, prefix, dirs).len() ==> chain_ended(
                g0,
                p,
                #[trigger] chains_dirs(g, p, r, c, prefix, dirs)[k],
            ),
    decreases occupied(g), 0nat, dirs.len(),
{
    if dirs.len() > 0 {
        let rest = dirs.drop_last();
        assert(unit_dirs(rest));
        lemma_chains_dirs_maximal(g0, g, p, r, c, prefix, rest);
        let d = dirs.last();
        if let Some(j) = capture_in(g, p, r, c, d) {
            lemma_capture_shrinks(g, p, r, c, d);
            lemma_capture_ok(g, p, r, c, d);
            let np = prefix.push(j);
            assert(np.drop_last() =~= prefix);
            assert(after_jumps(g0, np) == after_jump(g, j));
            lemma_chains_maximal(g0, after_jump(g, j), p, j.2 as int, j.3 as int, np);
            let a = chains_dirs(g, p, r, c, prefix, rest);
            let b = chains(after_jump(g, j), p, j.2 as int, j.3 as int, np);
            assert(chains_dirs(g, p, r, c, prefix, dirs) == a + b);
            assert forall|k: int| 0 <= k < (a + b).len() implies chain_ended(g0, p, #[trigger] (a + b)[k]) by {
                if k < a.len() {
                    assert((a + b)[k] == a[k]);
                } else {
                    assert((a + b)[k] == b[k - a.len()]);
                }
            }
        } else {
            assert(chains_dirs(g, p, r, c, prefix, dirs) == chains_dirs(g, p, r, c, prefix, rest));
        }
    }
}

/// Capture chains are maximal: once the piece on `(r, c)` has played any of its chains,
/// it has no capture left from the cell where it landed.
pub proof fn lemma_chains_are_maximal(g: Grid, p: Player, r: int, c: int)
    requires
        wf_grid(g),
        in_bounds(r, c),
    ensures
        forall|k: int| 0 <= k < chains(g, p, r, c, seq![]).len() ==> chain_ended(g, p, #[trigger] chains(g, p, r, c, seq![])[k]),
{
    assert(after_jumps(g, Seq::<Jump>::empty()) == g);
    lemma_chains_maximal(g, g, p, r, c, seq![]);
}

/// A capturing action jumps over a cell at every step and leaves no further capture to
/// its piece.
pub open spec fn stops_when_done(g: Grid, p: Player, a: Seq<Jump>) -> bool {
    is_capture(a) ==> chain_ended(g, p, a) && chain_ok(a)
}

pub proof fn lemma_quiet_dirs_quiet(g: Grid, r: int, c: int, dirs: Seq<(i32, i32)>)
    requires
        in_bounds(r, c),
        unit_dirs(dirs),
    ensures
        forall|k: int| 0 <= k < quiet_dirs(g, r, c, dirs).len() ==> !spans_two(#[trigger] quiet_dirs(g, r, c, dirs)[k]),
    decreases dirs.len(),
{
    if dirs.len() > 0 {
        let rest = dirs.drop_last();
        assert(unit_dirs(rest));
        lemma_quiet_dirs_quiet(g, r, c, rest);
        let a = quiet_dirs(g, r, c, rest);
        let d = dirs.last();
        assert((d.0 == 1 || d.0 == -1) && (d.1 == 1 || d.1 == -1));
        let nr = r + d.0;
        let nc = c + d.1;
        let b: Seq<Jump> = if in_bounds(nr, nc) && g[nr][nc] == CheckersTile::Empty {
            seq![(r as usize, c as usize, nr as usize, nc as usize)]
        } else {
            seq![]
        };
        assert(quiet_dirs(g, r, c, dirs) == a + b);
        assert forall|k: int| 0 <= k < (a + b).len() implies !spans_two(#[trigger] (a + b)[k]) by {
            if k < a.len() {
                assert((a + b)[k] == a[k]);
            } else {
                assert((a + b)[k] == b[k - a.len()]);
            }
        }
    }
}

pub proof fn lemma_piece_moves_stop(g: Grid, p: Player, r: int, c: int)
    requires
        wf_grid(g),
        in_bounds(r, c),
    ensures
        forall|k: int| 0 <= k < piece_moves(g, p, r, c).len() ==> stops_when_done(g, p, #[trigger] piece_moves(g, p, r, c)[k]),
{
    lemma_chains_are_maximal(g, p, r, c);
    lemma_chains_ok(g, p, r, c, seq![]);
    lemma_step_dirs_unit(tile_of(g, r, c));
    lemma_quiet_dirs_quiet(g, r, c, step_dirs(tile_of(g, r, c)));
    let caps = chains(g, p, r, c, seq![]);
    let q = regular_moves(g, r, c);
    assert forall|k: int| 0 <= k < piece_moves(g, p, r, c).len() implies stops_when_done(g, p, #[trigger] piece_moves(g, p, r, c)[k]) by {
        if caps.len() == 0 && owner(tile_of(g, r, c)) == Some(p) {
            assert(piece_moves(g, p, r, c) == q.map_values(|j: Jump| seq![j]));
            assert(piece_moves(g, p, r, c)[k] == seq![q[k]]);
            assert(!spans_two(q[k]));
            assert(seq![q[k]][0] == q[k]);
        } else if owner(tile_of(g, r, c)) == Some(p) {
            assert(chain_ended(g, p, caps[k]));
            assert(chain_ok(caps[k]));
        }
    }
}

pub proof fn lemma_concat_stop(g: Grid, p: Player, a: Seq<Seq<Jump>>, b: Seq<Seq<Jump>>)
    requires
        forall|k: int| 0 <= k < a.len() ==> stops_when_done(g, p, #[trigger] a[k]),
        forall|k: int| 0 <= k < b.len() ==> stops_when_done(g, p, #[trigger] b[k]),
    ensures
        forall|k: int| 0 <= k < (a + b).len() ==> stops_when_done(g, p, #[trigger] (a + b)[k]),
{
    assert forall|k: int| 0 <= k < (a + b).len() implies stops_when_done(g, p, #[trigger] (a + b)[k]) by {
        if k < a.len() {
            assert((a + b)[k] == a[k]);
        } else {
            assert((a + b)[k] == b[k - a.len()]);
        }
    }
}

pub proof fn lemma_board_moves_stop(g: Grid, p: Player, n: int)
    requires
        wf_grid(g),
        n <= 8,
    ensures
        forall|k: int| 0 <= k < board_moves(g, p, n).len() ==> stops_when_done(g, p, #[trigger] board_moves(g, p, n)[k]),
    decreases n,
{
    if n > 0 {
        lemma_board_moves_stop(g, p, n - 1);
        lemma_row_moves_stop(g, p, n - 1, 8);
        lemma_concat_stop(g, p, board_moves(g, p, n - 1), row_moves(g, p, n - 1, 8));
    }
}

pub proof fn lemma_row_moves_stop(g: Grid, p: Player, r: int, n: int)
    requires
        wf_grid(g),
        0 <= r < 8,
        n <= 8,
    ensures
        forall|k: int| 0 <= k < row_moves(g, p, r, n).len() ==> stops_when_done(g, p, #[trigger] row_moves(g, p, r, n)[k]),
    decreases n,
{
    if n > 0 {
        lemma_row_moves_stop(g, p, r, n - 1);
        lemma_piece_moves_stop(g, p, r, n - 1);
        lemma_concat_stop(g, p, row_moves(g, p, r, n - 1), cell_moves(g, p, r, n - 1));
    }
}

pub proof fn lemma_captures_in_stop(g: Grid, p: Player, s: Seq<Seq<Jump>>)
    requires
        forall|k: int| 0 <= k < s.len() ==> stops_when_done(g, p, #[trigger] s[k]),
    ensures
        forall|k: int| 0 <= k < captures_in(s).len() ==> stops_when_done(g, p, #[trigger] captures_in(s)[k]),
        forall|k: int| 0 <= k < quiets_in(s).len() ==> stops_when_done(g, p, #[trigger] quiets_in(s)[k]),
    decreases s.len(),
{
    if s.len() > 0 {
        let t = s.drop_last();
        assert forall|k: int| 0 <= k < t.len() implies stops_when_done(g, p, #[trigger] t[k]) by {
            assert(t[k] == s[k]);
        }
        lemma_captures_in_stop(g, p, t);
        let last = s.last();
        assert(stops_when_done(g, p, s[s.len() - 1]));
        lemma_concat_stop(g, p, captures_in(t), if is_capture(last) { seq![last] } else { seq![] });
        lemma_concat_stop(g, p, quiets_in(t), if is_capture(last) { seq![] } else { seq![last] });
    }
}

/// No capture stops early: after any capturing legal action, the piece that moved has
/// no capture left from where it landed. So two captures in a row by one piece form a
/// single action, never two.
pub proof fn lemma_capturing_actions_are_maximal(g: Grid, p: Player)
    requires
        wf_grid(g),
    ensures
        forall|k: int|
            0 <= k < legal_actions(g, p).len() && is_capture(#[trigger] legal_actions(g, p)[k]) ==> chain_ended(
                g,
                p,
                legal_actions(g, p)[k],
            ),
{
    lemma_board_moves_stop(g, p, 8);
    lemma_captures_in_stop(g, p, board_moves(g, p, 8));
    assert forall|k: int| 0 <= k < legal_actions(g, p).len() && is_capture(#[trigger] legal_actions(g, p)[k]) implies chain_ended(
        g,
        p,
        legal_actions(g, p)[k],
    ) by {
        assert(stops_when_done(g, p, legal_actions(g, p)[k]));
    }
}

/// A list of move sequences, seen as sequences.
pub open spec fn seqs_view(v: Seq<Vec<Jump>>) -> Seq<Seq<Jump>> {
    v.map_values(|a: Vec<Jump>| a@)
}

pub open spec fn jump_in_bounds(j: Jump) -> bool {
    j.0 < 8 && j.1 < 8 && j.2 < 8 && j.3 < 8
}

fn copy_jumps(v: &Vec<Jump>) -> (r: Vec<Jump>)
    ensures
        r@ == v@,
{
    let mut r: Vec<Jump> = Vec::new();
    let mut i: usize = 0;
    while i < v.len()
        invariant
            i <= v@.len(),
            r@ == v@.take(i as int),
        decreases v@.len() - i,
    {
        r.push(v[i]);
        assert(v@.take(i + 1) =~= v@.take(i as int).push(v@[i as int]));
        i += 1;
    }
    assert(v@.take(i as int) =~= v@);
    r
}

fn piece_dirs(piece: CheckersTile) -> (r: Vec<(i32, i32)>)
    ensures
        r@ == step_dirs(piece),
{
    let r = match piece {
        CheckersTile::Checker(Player::Player1) => vec![(1i32, -1i32), (1i32, 1i32)],
        CheckersTile::Checker(Player::Player2) => vec![(-1i32, -1i32), (-1i32, 1i32)],
        CheckersTile::Queen(_) => vec![(-1i32, -1i32), (-1i32, 1i32), (1i32, -1i32), (1i32, 1i32)],
        CheckersTile::Empty => vec![],
    };
    assert(r@ =~= step_dirs(piece));
    r
}

fn piece_owner(t: CheckersTile) -> (r: Option<Player>)
    ensures
        r == owner(t),
{
    match t {
        CheckersTile::Empty => None,
        CheckersTile::Checker(p) => Some(p),
        CheckersTile::Queen(p) => Some(p),
    }
}

fn promoted(piece: CheckersTile, to_row: usize) -> (r: Option<CheckersTile>)
    ensures
        r == promotion(piece, to_row as int),
{
    match piece {
        CheckersTile::Checker(Player::Player1) if to_row == 7 => Some(CheckersTile::Queen(Player::Player1)),
        CheckersTile::Checker(Player::Player2) if to_row == 0 => Some(CheckersTile::Queen(Player::Player2)),
        _ => None,
    }
}

impl CheckersBoard {
    /// The board as rows of tiles.
    pub open spec fn grid(self) -> Grid {
        Seq::new(8, |r: int| self.board[r]@)
    }

    pub proof fn lemma_grid_wf(self)
        ensures
            wf_grid(self.grid()),
    {
        assert forall|r: int| 0 <= r < 8 implies #[trigger] self.grid()[r].len() == 8 by {}
    }

    fn set(&mut self, r: usize, c: usize, t: CheckersTile)
        requires
            r < 8,
            c < 8,
        ensures
            final(self).grid() == set_cell(old(self).grid(), r as int, c as int, t),
            final(self).current_player == old(self).current_player,
            final(self).moves_without_capture == old(self).moves_without_capture,
    {
        self.board[r][c] = t;
        assert(self.grid() =~= set_cell(old(self).grid(), r as int, c as int, t));
    }

    /// Whether `(row, col)` is on the board.
    fn is_valid_position(&self, row: usize, col: usize) -> (r: bool)
        ensures
            r == in_bounds(row as int, col as int),
    {
        row < 8 && col < 8
    }

    /// The tile at `(row, col)`; off the board, an empty one.
    fn get_piece_at(&self, row: usize, col: usize) -> (t: CheckersTile)
        ensures
            t == tile_of(self.grid(), row as int, col as int),
    {
        if self.is_valid_position(row, col) {
            self.board[row][col]
        } else {
            CheckersTile::Empty
        }
    }

    /// The capture from `(row, col)` in direction `(dr, dc)`, if there is one.
    fn find_single_capture(&self, row: usize, col: usize, dr: i32, dc: i32) -> (r: Option<Jump>)
        requires
            row < 8,
            col < 8,
            -1 <= dr <= 1,
            -1 <= dc <= 1,
        ensures
            r == capture_in(self.grid(), self.current_player, row as int, col as int, (dr, dc)),
    {
        let opponent_row = row as i32 + dr;
        let opponent_col = col as i32 + dc;
        if opponent_row < 0 || opponent_row >= 8 || opponent_col < 0 || opponent_col >= 8 {
            return None;
        }
        let opponent_row = opponent_row as usize;
        let opponent_col = opponent_col as usize;
        match piece_owner(self.get_piece_at(opponent_row, opponent_col)) {
            Some(player) if player != self.current_player => {
                let landing_row = opponent_row as i32 + dr;
                let landing_col = opponent_col as i32 + dc;
                if landing_row >= 0 && landing_row < 8 && landing_col >= 0 && landing_col < 8 {
                    let landing_row = landing_row as usize;
                    let landing_col = landing_col as usize;
                    if self.get_piece_at(landing_row, landing_col) == CheckersTile::Empty {
                        return Some((row, col, landing_row, landing_col));
                    }
                }
            },
            _ => {},
        }
        None
    }

    /// The board after the capturing jumps of `sequence`, played one after another.
    fn apply_capture_sequence(&self, sequence: &Vec<Jump>) -> (b: CheckersBoard)
        requires
            forall|i: int| 0 <= i < sequence@.len() ==> jump_in_bounds(#[trigger] sequence@[i]),
        ensures
            b.grid() == after_jumps(self.grid(), sequence@),
            b.current_player == self.current_player,
            b.moves_without_capture == self.moves_without_capture,
    {
        let mut board = *self;
        let mut i: usize = 0;
        while i < sequence.len()
            invariant
                i <= sequence@.len(),
                forall|k: int| 0 <= k < sequence@.len() ==> jump_in_bounds(#[trigger] sequence@[k]),
                board.grid() == after_jumps(self.grid(), sequence@.take(i as int)),
                board.current_player == self.current_player,
                board.moves_without_capture == self.moves_without_capture,
            decreases sequence@.len() - i,
        {
            let (from_row, from_col, to_row, to_col) = sequence[i];
            assert(jump_in_bounds(sequence@[i as int]));
            let piece = board.board[from_row][from_col];
            board.set(to_row, to_col, piece);
            board.set(from_row, from_col, CheckersTile::Empty);
            let captured_row = (from_row + to_row) / 2;
            let captured_col = (from_col + to_col) / 2;
            board.set(captured_row, captured_col, CheckersTile::Empty);
            if let Some(queen) = promoted(piece, to_row) {
                board.set(to_row, to_col, queen);
            }
            assert(sequence@.take(i + 1).drop_last() =~= sequence@.take(i as int));
            i += 1;
        }
        assert(sequence@.take(i as int) =~= sequence@);
        board
    }

    pub open spec fn view_of(self) -> CheckersView {
        CheckersView {
            grid: self.grid(),
            player: self.current_player,
            quiet: self.moves_without_capture as int,
        }
    }

    /// The starting position: twelve checkers a side, Player1 to move.
    pub fn new() -> (b: CheckersBoard)
        ensures
            forall|r: int, c: int| in_bounds(r, c) ==> #[trigger] b.grid()[r][c] == initial_tile(r, c),
            b.current_player == Player::Player1,
            b.moves_without_capture == 0,
    {
        let mut b = CheckersBoard {
            board: [[CheckersTile::Empty; 8]; 8],
            current_player: Player::Player1,
            moves_without_capture: 0,
        };
        proof {
            assert forall|r: int, c: int| in_bounds(r, c) implies #[trigger] b.grid()[r][c] == CheckersTile::Empty by {}
        }
        let mut row: usize = 0;
        while row < 8
            invariant
                row <= 8,
                b.current_player == Player::Player1,
                b.moves_without_capture == 0,
                forall|r: int, c: int|
                    in_bounds(r, c) ==> #[trigger] b.grid()[r][c] == if r < row {
                        initial_tile(r, c)
                    } else {
                        CheckersTile::Empty
                    },
            decreases 8 - row,
        {
            let mut col: usize = row % 2;
            while col < 8
                invariant
                    row < 8,
                    col <= 9,
                    col % 2 == row % 2,
                    b.current_player == Player::Player1,
                    b.moves_without_capture == 0,
                    forall|r: int, c: int|
                        in_bounds(r, c) ==> #[trigger] b.grid()[r][c] == if r < row || (r == row && c < col) {
                            initial_tile(r, c)
                        } else {
                            CheckersTile::Empty
                        },
                decreases 9 - col,
            {
                if row < 3 {
                    b.set(row, col, CheckersTile::Checker(Player::Player1));
                } else if row > 4 {
                    b.set(row, col, CheckersTile::Checker(Player::Player2));
                }
                proof {
                    assert forall|r: int, c: int| in_bounds(r, c) implies #[trigger] b.grid()[r][c] == if r < row || (
                    r == row && c < col + 2) {
                        initial_tile(r, c)
                    } else {
                        CheckersTile::Empty
                    } by {
                        if r == row && c == col + 1 {
                            assert((r + c) % 2 != 0);
                        }
                    }
                }
                col += 2;
            }
            row += 1;
        }
        b
    }

    /// The legal actions: every capture chain if some piece can capture, else every
    /// quiet move; pieces taken row by row, column by column.
    fn get_possible_actions_list(&self) -> (actions: Vec<Vec<Jump>>)
        ensures
            seqs_view(actions@) == legal_actions(self.grid(), self.current_player),
    {
        let ghost g = self.grid();
        let ghost p = self.current_player;
        let mut all_moves: Vec<Vec<Jump>> = Vec::new();
        let mut capture_moves: Vec<Vec<Jump>> = Vec::new();
        let mut row: usize = 0;
        while row < 8
            invariant
                row <= 8,
                g == self.grid(),
                p == self.current_player,
                seqs_view(capture_moves@) == captures_in(board_moves(g, p, row as int)),
                seqs_view(all_moves@) == quiets_in(board_moves(g, p, row as int)),
            decreases 8 - row,
        {
            let mut col: usize = 0;
            while col < 8
                invariant
                    row < 8,
                    col <= 8,
                    g == self.grid(),
                    p == self.current_player,
                    seqs_view(capture_moves@) == captures_in(board_moves(g, p, row as int) + row_moves(g, p, row as int, col as int)),
                    seqs_view(all_moves@) == quiets_in(board_moves(g, p, row as int) + row_moves(g, p, row as int, col as int)),
                decreases 8 - col,
            {
                let ghost done = board_moves(g, p, row as int) + row_moves(g, p, row as int, col as int);
                if piece_owner(self.board[row][col]) == Some(self.current_player) {
                    let moves = self.get_moves_for_piece(row, col);
                    let ghost mv = seqs_view(moves@);
                    let mut i: usize = 0;
                    while i < moves.len()
                        invariant
                            i <= moves@.len(),
                            mv == seqs_view(moves@),
                            seqs_view(capture_moves@) == captures_in(done + mv.take(i as int)),
                            seqs_view(all_moves@) == quiets_in(done + mv.take(i as int)),
                        decreases moves@.len() - i,
                    {
                        let mov = copy_jumps(&moves[i]);
                        assert((done + mv.take(i + 1)).drop_last() =~= done + mv.take(i as int));
                        assert((done + mv.take(i + 1)).last() == mov@);
                        let capture = if mov.len() > 1 {
                            true
                        } else if mov.len() == 1 {
                            let (from_row, from_col, to_row, to_col) = mov[0];
                            let row_diff = if to_row >= from_row { to_row - from_row } else { from_row - to_row };
                            let col_diff = if to_col >= from_col { to_col - from_col } else { from_col - to_col };
                            row_diff == 2 && col_diff == 2
                        } else {
                            false
                        };
                        assert(capture == is_capture(mov@));
                        let ghost mov_view = mov@;
                        if capture {
                            let ghost before = capture_moves@;
                            capture_moves.push(mov);
                            assert(seqs_view(capture_moves@) =~= seqs_view(before).push(mov_view));
                        } else {
                            let ghost before = all_moves@;
                            all_moves.push(mov);
                            assert(seqs_view(all_moves@) =~= seqs_view(before).push(mov_view));
                        }
                        i += 1;
                    }
                    assert(mv.take(i as int) =~= mv);
                }
                assert(row_moves(g, p, row as int, col + 1) == row_moves(g, p, row as int, col as int) + cell_moves(g, p, row as int, col as int));
                assert(done + cell_moves(g, p, row as int, col as int) =~= board_moves(g, p, row as int) + row_moves(g, p, row as int, col + 1));
                proof {
                    if owner(g[row as int][col as int]) != Some(p) {
                        assert(cell_moves(g, p, row as int, col as int) =~= Seq::<Seq<Jump>>::empty());
                        assert(done + cell_moves(g, p, row as int, col as int) =~= done);
                    }
                }
                col += 1;
            }
            row += 1;
        }
        if capture_moves.len() > 0 {
            capture_moves
        } else {
            all_moves
        }
    }

    /// The position after a non-empty action: its jumps are played in turn, the counter
    /// of moves without capture is reset or advanced, and the other side moves next.
    fn play_action(&self, action: &Vec<Jump>) -> (b: CheckersBoard)
        requires
            action@.len() > 0,
            forall|i: int| 0 <= i < action@.len() ==> jump_in_bounds(#[trigger] action@[i]),
            self.moves_without_capture < u32::MAX,
        ensures
            b.view() == self.view().applied(action@),
    {
        let mut new_board = *self;
        let mut captured_any = false;
        let mut i: usize = 0;
        while i < action.len()
            invariant
                i <= action@.len(),
                forall|k: int| 0 <= k < action@.len() ==> jump_in_bounds(#[trigger] action@[k]),
                new_board.grid() == play(self.grid(), action@.take(i as int)),
                captured_any == captures_any(action@.take(i as int)),
                new_board.current_player == self.current_player,
                new_board.moves_without_capture == self.moves_without_capture,
            decreases action@.len() - i,
        {
            let (from_row, from_col, to_row, to_col) = action[i];
            assert(jump_in_bounds(action@[i as int]));
            let ghost prev = action@.take(i as int);
            assert(action@.take(i + 1).drop_last() =~= prev);
            let piece = new_board.board[from_row][from_col];
            new_board.set(to_row, to_col, piece);
            new_board.set(from_row, from_col, CheckersTile::Empty);
            let row_diff = if to_row >= from_row { to_row - from_row } else { from_row - to_row };
            let col_diff = if to_col >= from_col { to_col - from_col } else { from_col - to_col };
            if row_diff == 2 && col_diff == 2 {
                let captured_row = (from_row + to_row) / 2;
                let captured_col = (from_col + to_col) / 2;
                new_board.set(captured_row, captured_col, CheckersTile::Empty);
                captured_any = true;
            }
            if let Some(queen) = promoted(piece, to_row) {
                new_board.set(to_row, to_col, queen);
            }
            proof {
                let next = action@.take(i + 1);
                if captures_any(next) && !captures_any(prev) {
                    let k = choose|k: int| 0 <= k < next.len() && spans_two(#[trigger] next[k]);
                    if k < i {
                        assert(prev[k] == next[k]);
                    }
                }
                if captures_any(prev) {
                    let k = choose|k: int| 0 <= k < prev.len() && spans_two(#[trigger] prev[k]);
                    assert(next[k] == prev[k]);
                }
                if row_diff == 2 && col_diff == 2 {
                    assert(spans_two(next[i as int]));
                }
            }
            i += 1;
        }
        assert(action@.take(i as int) =~= action@);
        if captured_any {
            new_board.moves_without_capture = 0;
        } else {
            new_board.moves_without_capture = new_board.moves_without_capture + 1;
        }
        new_board.current_player = new_board.current_player.switch();
        new_board
    }

    /// The game is over: a side has no pieces left, fifty moves went by without a
    /// capture, or the side to move cannot move.
    fn terminal(&self) -> (r: bool)
        ensures
            r == self.view().is_terminal(),
    {
        let player1_pieces = self.count_pieces(Player::Player1);
        let player2_pieces = self.count_pieces(Player::Player2);
        if player1_pieces == 0 || player2_pieces == 0 {
            return true;
        }
        if self.moves_without_capture >= 50 {
            return true;
        }
        if !self.has_any_moves(self.current_player) {
            return true;
        }
        false
    }

    /// Material and advancement, in half-points.
    fn heuristic(&self) -> (score: i64)
        ensures
            score == grid_score(self.grid(), 8),
    {
        let ghost g = self.grid();
        let mut score: i64 = 0;
        let mut row: usize = 0;
        while row < 8
            invariant
                row <= 8,
                g == self.grid(),
                score == grid_score(g, row as int),
                -480 * (row as int) <= score <= 480 * (row as int),
            decreases 8 - row,
        {
            let mut col: usize = 0;
            while col < 8
                invariant
                    row < 8,
                    col <= 8,
                    g == self.grid(),
                    score == grid_score(g, row as int) + row_score(g[row as int], row as int, col as int),
                    -(480 * (row as int) + 60 * (col as int)) <= score <= 480 * (row as int) + 60 * (col as int),
                decreases 8 - col,
            {
                let r = row as i64;
                match self.board[row][col] {
                    CheckersTile::Checker(Player::Player1) => {
                        score = score + 20 + r;
                    },
                    CheckersTile::Checker(Player::Player2) => {
                        score = score - (20 + (7 - r));
                    },
                    CheckersTile::Queen(Player::Player1) => {
                        score = score + 60;
                    },
                    CheckersTile::Queen(Player::Player2) => {
                        score = score - 60;
                    },
                    CheckersTile::Empty => {},
                }
                col += 1;
            }
            row += 1;
        }
        score
    }

    /// A win or loss for a finished game with a side left without pieces, 0 for another
    /// finished game, else the heuristic.
    fn evaluation(&self) -> (r: i64)
        ensures
            r == self.view().evaluation(),
    {
        if self.terminal() {
            let player1_pieces = self.count_pieces(Player::Player1);
            let player2_pieces = self.count_pieces(Player::Player2);
            if player1_pieces == 0 {
                return -CHECKERS_WIN;
            }
            if player2_pieces == 0 {
                return CHECKERS_WIN;
            }
            return 0;
        }
        self.heuristic()
    }

    /// Equal boards, sides to move and counters.
    fn same_board(&self, other: &CheckersBoard) -> (r: bool)
        ensures
            r == (self.view() == other.view()),
    {
        if self.current_player != other.current_player || self.moves_without_capture != other.moves_without_capture {
            return false;
        }
        let mut row: usize = 0;
        while row < 8
            invariant
                row <= 8,
                forall|r: int, c: int| 0 <= r < row && 0 <= c < 8 ==> #[trigger] self.grid()[r][c] == other.grid()[r][c],
            decreases 8 - row,
        {
            let mut col: usize = 0;
            while col < 8
                invariant
                    row < 8,
                    col <= 8,
                    forall|r: int, c: int|
                        ((0 <= r < row && 0 <= c < 8) || (r == row && 0 <= c < col)) ==> #[trigger] self.grid()[r][c]
                            == other.grid()[r][c],
                decreases 8 - col,
            {
                if self.board[row][col] != other.board[row][col] {
                    assert(self.grid()[row as int][col as int] != other.grid()[row as int][col as int]);
                    return false;
                }
                col += 1;
            }
            row += 1;
        }
        proof {
            self.lemma_grid_wf();
            other.lemma_grid_wf();
            assert forall|r: int| 0 <= r < 8 implies #[trigger] self.grid()[r] =~= other.grid()[r] by {
                assert forall|c: int| 0 <= c < 8 implies self.grid()[r][c] == other.grid()[r][c] by {
                    assert(self.grid()[r][c] == other.grid()[r][c]);
                }
            }
            assert(self.grid() =~= other.grid());
        }
        true
    }

    /// The one-step moves of the piece on `(row, col)` into empty cells.
    fn get_regular_moves_for_piece(&self, row: usize, col: usize) -> (moves: Vec<Jump>)
        requires
            row < 8,
            col < 8,
        ensures
            moves@ == regular_moves(self.grid(), row as int, col as int),
    {
        let ghost g = self.grid();
        let mut moves: Vec<Jump> = Vec::new();
        let piece = self.get_piece_at(row, col);
        let directions = piece_dirs(piece);
        let mut i: usize = 0;
        while i < directions.len()
            invariant
                i <= directions@.len(),
                directions@ == step_dirs(piece),
                piece == tile_of(g, row as int, col as int),
                g == self.grid(),
                row < 8,
                col < 8,
                moves@ == quiet_dirs(g, row as int, col as int, directions@.take(i as int)),
            decreases directions@.len() - i,
        {
            let (dr, dc) = directions[i];
            proof {
                lemma_step_dirs_unit(piece);
                assert(directions@[i as int] == (dr, dc));
                assert(directions@.take(i + 1).drop_last() =~= directions@.take(i as int));
            }
            let new_row = row as i32 + dr;
            let new_col = col as i32 + dc;
            if new_row >= 0 && new_row < 8 && new_col >= 0 && new_col < 8 {
                let new_row = new_row as usize;
                let new_col = new_col as usize;
                if self.get_piece_at(new_row, new_col) == CheckersTile::Empty {
                    moves.push((row, col, new_row, new_col));
                }
            }
            proof {
                assert(moves@ =~= quiet_dirs(g, row as int, col as int, directions@.take(i + 1)));
            }
            i += 1;
        }
        assert(directions@.take(i as int) =~= directions@);
        moves
    }

    /// The maximal capture chains of the piece on `(row, col)`.
    fn get_capture_moves_for_piece(&self, row: usize, col: usize) -> (r: Vec<Vec<Jump>>)
        requires
            row < 8,
            col < 8,
        ensures
            seqs_view(r@) == chains(self.grid(), self.current_player, row as int, col as int, seq![]),
    {
        let mut all_capture_sequences: Vec<Vec<Jump>> = Vec::new();
        self.find_all_capture_sequences(row, col, Vec::new(), &mut all_capture_sequences);
        assert(seqs_view(Seq::<Vec<Jump>>::empty()) =~= Seq::<Seq<Jump>>::empty());
        all_capture_sequences
    }

    /// The moves of the piece on `(row, col)` if it belongs to the side to move: its
    /// capture chains, or else its quiet moves.
    fn get_moves_for_piece(&self, row: usize, col: usize) -> (moves: Vec<Vec<Jump>>)
        requires
            row < 8,
            col < 8,
        ensures
            seqs_view(moves@) == piece_moves(self.grid(), self.current_player, row as int, col as int),
    {
        let ghost g = self.grid();
        let mut moves: Vec<Vec<Jump>> = Vec::new();
        let piece = self.get_piece_at(row, col);
        match piece_owner(piece) {
            Some(player) => {
                if player != self.current_player {
                    assert(seqs_view(moves@) =~= Seq::<Seq<Jump>>::empty());
                    return moves;
                }
                let capture_moves = self.get_capture_moves_for_piece(row, col);
                if capture_moves.len() > 0 {
                    return capture_moves;
                }
                let regular_moves = self.get_regular_moves_for_piece(row, col);
                let ghost target = regular_moves@.map_values(|j: Jump| seq![j]);
                let mut i: usize = 0;
                while i < regular_moves.len()
                    invariant
                        i <= regular_moves@.len(),
                        seqs_view(moves@) == target.take(i as int),
                        target == regular_moves@.map_values(|j: Jump| seq![j]),
                    decreases regular_moves@.len() - i,
                {
                    let mov = regular_moves[i];
                    let single = vec![mov];
                    let ghost before = moves@;
                    moves.push(single);
                    assert(seqs_view(moves@) =~= seqs_view(before).push(single@));
                    assert(single@ =~= seq![mov]);
                    assert(target.take(i + 1) =~= target.take(i as int).push(target[i as int]));
                    i += 1;
                }
                assert(target.take(i as int) =~= target);
            },
            None => {
                assert(seqs_view(moves@) =~= Seq::<Seq<Jump>>::empty());
            },
        }
        moves
    }

    /// Number of pieces, checkers and queens, that `player` has on the board.
    pub fn count_pieces(&self, player: Player) -> (count: u32)
        ensures
            count == pieces(self.grid(), player),
    {
        let ghost g = self.grid();
        let mut count: u32 = 0;
        let mut row: usize = 0;
        while row < 8
            invariant
                row <= 8,
                g == self.grid(),
                count == count_grid(g, row as int, Some(player)),
                count <= 8 * row,
            decreases 8 - row,
        {
            let mut col: usize = 0;
            while col < 8
                invariant
                    row < 8,
                    col <= 8,
                    g == self.grid(),
                    count == count_grid(g, row as int, Some(player)) + count_row(g[row as int], col as int, Some(player)),
                    count <= 8 * row + col,
                decreases 8 - col,
            {
                if piece_owner(self.board[row][col]) == Some(player) {
                    count += 1;
                }
                col += 1;
            }
            row += 1;
        }
        count
    }

    /// Whether some piece of `player` can move.
    fn has_any_moves(&self, player: Player) -> (r: bool)
        ensures
            r == any_moves(self.grid(), self.current_player, player),
    {
        let ghost g = self.grid();
        let mut row: usize = 0;
        while row < 8
            invariant
                row <= 8,
                g == self.grid(),
                forall|r: int, c: int|
                    0 <= r < row && 0 <= c < 8 && owner(g[r][c]) == Some(player) ==> (#[trigger] piece_moves(
                        g,
                        self.current_player,
                        r,
                        c,
                    )).len() == 0,
            decreases 8 - row,
        {
            let mut col: usize = 0;
            while col < 8
                invariant
                    row < 8,
                    col <= 8,
                    g == self.grid(),
                    forall|r: int, c: int|
                        ((0 <= r < row && 0 <= c < 8) || (r == row && 0 <= c < col)) && owner(g[r][c])
                            == Some(player) ==> (#[trigger] piece_moves(g, self.current_player, r, c)).len() == 0,
                decreases 8 - col,
            {
                if piece_owner(self.board[row][col]) == Some(player) {
                    let moves = self.get_moves_for_piece(row, col);
                    if moves.len() > 0 {
                        assert(piece_moves(g, self.current_player, row as int, col as int).len() > 0);
                        return true;
                    }
                }
                col += 1;
            }
            row += 1;
        }
        false
    }
    #[verifier::rlimit(30)]
    /// Appends to `all_sequences` every maximal capture chain of the piece on
    /// `(row, col)` that extends `current_sequence`.
    fn find_all_capture_sequences(
        &self,
        row: usize,
        col: usize,
        current_sequence: Vec<Jump>,
        all_sequences: &mut Vec<Vec<Jump>>,
    )
        requires
            row < 8,
            col < 8,
        ensures
            seqs_view(final(all_sequences)@) == seqs_view(old(all_sequences)@) + chains(
                self.grid(),
                self.current_player,
                row as int,
                col as int,
                current_sequence@,
            ),
        decreases occupied(self.grid()),
    {
        proof {
            self.lemma_grid_wf();
        }
        let ghost g = self.grid();
        let ghost p = self.current_player;
        let ghost start = seqs_view(all_sequences@);
        let piece = self.get_piece_at(row, col);
        let directions = piece_dirs(piece);
        let mut found_capture = false;
        let mut i: usize = 0;
        while i < directions.len()
            invariant
                i <= directions@.len(),
                directions@ == step_dirs(piece),
                piece == tile_of(g, row as int, col as int),
                g == self.grid(),
                p == self.current_player,
                wf_grid(g),
                seqs_view(all_sequences@) == start + chains_dirs(
                    g,
                    p,
                    row as int,
                    col as int,
                    current_sequence@,
                    directions@.take(i as int),
                ),
                found_capture == has_capture(g, p, row as int, col as int, directions@.take(i as int)),
            decreases directions@.len() - i,
        {
            let (dr, dc) = directions[i];
            let ghost before = directions@.take(i as int);
            assert(directions@.take(i + 1).drop_last() =~= before);
            if let Some(capture_move) = self.find_single_capture(row, col, dr, dc) {
                found_capture = true;
                let (_, _, to_row, to_col) = capture_move;
                let mut new_sequence = copy_jumps(&current_sequence);
                new_sequence.push(capture_move);
                let step = vec![capture_move];
                let temp_board = self.apply_capture_sequence(&step);
                proof {
                    lemma_step_dirs_unit(piece);
                    assert(directions@[i as int] == (dr, dc));
                    lemma_capture_shrinks(g, p, row as int, col as int, (dr, dc));
                    assert(step@.drop_last() =~= Seq::<Jump>::empty());
                    assert(after_jumps(g, step@.drop_last()) == g);
                    assert(after_jumps(g, step@) == after_jump(g, capture_move));
                    assert(new_sequence@ =~= current_sequence@.push(capture_move));
                    assert(directions@.take(i + 1)[i as int] == (dr, dc));
                }
                temp_board.find_all_capture_sequences(to_row, to_col, new_sequence, all_sequences);
                proof {
                    assert(seqs_view(all_sequences@) =~= start + chains_dirs(g, p, row as int, col as int,
                        current_sequence@, directions@.take(i + 1)));
                }
            } else {
                proof {
                    if has_capture(g, p, row as int, col as int, directions@.take(i + 1)) {
                        let k = choose|k: int| 0 <= k < i + 1 && (#[trigger] capture_in(g, p, row as int,
                            col as int, directions@.take(i + 1)[k])) is Some;
                        assert(directions@.take(i + 1)[k] == before[k]);
                    }
                }
            }
            i += 1;
        }
        assert(directions@.take(i as int) =~= directions@);
        proof {
            lemma_step_dirs_unit(piece);
            if !found_capture {
                lemma_chains_dirs_none(g, p, row as int, col as int, current_sequence@, directions@);
            }
        }
        if !found_capture && current_sequence.len() > 0 {
            let ghost pushed = current_sequence@;
            let ghost before = all_sequences@;
            all_sequences.push(current_sequence);
            assert(seqs_view(all_sequences@) =~= seqs_view(before).push(pushed));
            assert(seqs_view(all_sequences@) =~= start + seq![pushed]);
        }
    }
}

impl View for CheckersBoard {
    type V = CheckersView;

    open spec fn view(&self) -> CheckersView {
        CheckersView { grid: self.grid(), player: self.current_player, quiet: self.moves_without_capture as int }
    }
}

impl GameState for CheckersBoard {
    type Action = Vec<Jump>;

    open spec fn actions_of(s: CheckersView) -> Seq<Seq<Jump>> {
        legal_actions(s.grid, s.player)
    }

    open spec fn apply_to(s: CheckersView, a: Seq<Jump>) -> CheckersView {
        s.applied(a)
    }

    open spec fn can_apply(s: CheckersView, a: Seq<Jump>) -> bool {
        &&& forall|i: int| 0 <= i < a.len() ==> jump_in_bounds(#[trigger] a[i])
        &&& s.quiet < u32::MAX
    }

    open spec fn terminal(s: CheckersView) -> bool {
        s.is_terminal()
    }

    open spec fn score(s: CheckersView) -> Option<i64> {
        Some(s.evaluation() as i64)
    }

    open spec fn valid(s: CheckersView) -> bool {
        wf_grid(s.grid) && 0 <= s.quiet
    }

    proof fn lemma_valid(&self) {
        self.lemma_grid_wf();
    }

    proof fn lemma_actions_applicable(s: CheckersView) {
        lemma_legal_actions_ok(s.grid, s.player);
        assert forall|i: int| 0 <= i < legal_actions(s.grid, s.player).len() implies Self::can_apply(s, #[trigger] legal_actions(s.grid, s.player)[i]) by {
            assert(action_ok(legal_actions(s.grid, s.player)[i]));
        }
    }

    fn get_possible_actions(&self) -> (r: Vec<Vec<Jump>>) {
        let r = self.get_possible_actions_list();
        assert(r@.map_values(|a: Vec<Jump>| a@) =~= seqs_view(r@));
        r
    }

    /// Plays an action; the side to move switches once whatever the length of the chain.
    fn apply_action(&self, action: &Vec<Jump>) -> (r: CheckersBoard) {
        if action.len() == 0 {
            return *self;
        }
        self.play_action(action)
    }

    fn is_terminal(&self) -> (r: bool) {
        self.terminal()
    }

    fn evaluate(&self) -> (r: Option<i64>) {
        Some(self.evaluation())
    }

    fn same_position(&self, other: &CheckersBoard) -> (r: bool) {
        self.same_board(other)
    }

    fn copy_position(&self) -> (r: CheckersBoard) {
        *self
    }
}

pub proof fn lemma_play_wf(g: Grid, a: Seq<Jump>)
    requires
        wf_grid(g),
        forall|i: int| 0 <= i < a.len() ==> jump_in_bounds(#[trigger] a[i]),
    ensures
        wf_grid(play(g, a)),
    decreases a.len(),
{
    if a.len() > 0 {
        let t = a.drop_last();
        assert forall|i: int| 0 <= i < t.len() implies jump_in_bounds(#[trigger] t[i]) by {
            assert(t[i] == a[i]);
        }
        lemma_play_wf(g, t);
        let j = a.last();
        assert(jump_in_bounds(a[a.len() - 1]));
        let h = play(g, t);
        let piece = h[j.0 as int][j.1 as int];
        lemma_occupied_update(h, j.2 as int, j.3 as int, piece);
        let g1 = set_cell(h, j.2 as int, j.3 as int, piece);
        lemma_occupied_update(g1, j.0 as int, j.1 as int, CheckersTile::Empty);
        let g2 = set_cell(g1, j.0 as int, j.1 as int, CheckersTile::Empty);
        lemma_occupied_update(g2, (j.0 + j.2) / 2, (j.1 + j.3) / 2, CheckersTile::Empty);
        let g3 = if spans_two(j) {
            set_cell(g2, (j.0 + j.2) / 2, (j.1 + j.3) / 2, CheckersTile::Empty)
        } else {
            g2
        };
        if let Some(q) = promotion(piece, j.2 as int) {
            lemma_occupied_update(g3, j.2 as int, j.3 as int, q);
        }
    }
}

/// Every legal action of a well-formed position leads to a well-formed position with
/// the other side to move.
pub proof fn lemma_legal_child(s: CheckersView, i: int)
    requires
        wf_grid(s.grid),
        0 <= i < legal_actions(s.grid, s.player).len(),
    ensures
        wf_grid(s.applied(legal_actions(s.grid, s.player)[i]).grid),
        s.applied(legal_actions(s.grid, s.player)[i]).player == s.player.opponent(),
{
    lemma_legal_actions_ok(s.grid, s.player);
    let a = legal_actions(s.grid, s.player)[i];
    assert(action_ok(a));
    lemma_play_wf(s.grid, a);
}

/// A child has the other side to move and a grandchild the same side, so no position is
/// both.
pub proof fn lemma_checkers_plies_apart(s: CheckersView)
    requires
        wf_grid(s.grid),
    ensures
        plies_apart::<CheckersBoard>(s),
{
    assert forall|k: CheckersView| #[trigger] is_child::<CheckersBoard>(s, k) implies !is_grandchild::<CheckersBoard>(s, k) by {
        let i = choose|i: int|
            0 <= i < CheckersBoard::actions_of(s).len() && k == CheckersBoard::apply_to(s, #[trigger] CheckersBoard::actions_of(s)[i]);
        lemma_legal_child(s, i);
        if is_grandchild::<CheckersBoard>(s, k) {
            let j = choose|j: int|
                0 <= j < CheckersBoard::actions_of(s).len() && is_child::<CheckersBoard>(
                    CheckersBoard::apply_to(s, #[trigger] CheckersBoard::actions_of(s)[j]),
                    k,
                );
            let c = CheckersBoard::apply_to(s, CheckersBoard::actions_of(s)[j]);
            lemma_legal_child(s, j);
            let l = choose|l: int|
                0 <= l < CheckersBoard::actions_of(c).len() && k == CheckersBoard::apply_to(c, #[trigger] CheckersBoard::actions_of(c)[l]);
            lemma_legal_child(c, l);
        }
    }
}

/// On every checkers position, a depth-two search with cutoffs and memo values the
/// position as plain minimax does.
pub proof fn lemma_checkers_search_matches_minimax(s: CheckersView, maximizing: bool)
    requires
        wf_grid(s.grid),
    ensures
        search::<CheckersBoard>(s, 2, maximizing, Map::empty(), i64::MIN, i64::MAX).node.evaluation
            == minimax_value::<CheckersBoard>(s, 2, maximizing),
{
    lemma_checkers_plies_apart(s);
    lemma_pruning_keeps_value_at_depth_two::<CheckersBoard>(s, maximizing);
}

} // verus!
