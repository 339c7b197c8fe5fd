use vstd::prelude::*;

verus! {

/// One of the two sides of a game.
#[derive(Debug, Clone, Copy, PartialEq, Eq, Hash, Structural)]
pub enum Player {
    Player1,
    Player2,
}

/// A cell of a four-in-a-row board.
#[derive(Debug, Clone, Copy, PartialEq, Eq, Hash, Structural)]
pub enum Tile {
    Empty,
    Player1,
    Player2,
}

/// Status of a finished or running game.
#[derive(Debug, Clone, Copy, PartialEq, Eq, Hash, Structural)]
pub enum GameResult {
    Ongoing,
    Win(Player),
    Draw,
}

impl Player {
    /// The other side.
    pub open spec fn opponent(self) -> Player {
        match self {
            Player::Player1 => Player::Player2,
            Player::Player2 => Player::Player1,
        }
    }

    /// The tile that marks this side's discs.
    pub open spec fn tile_spec(self) -> Tile {
        match self {
            Player::Player1 => Tile::Player1,
            Player::Player2 => Tile::Player2,
        }
    }

    /// The side that moves next.
    pub fn switch(&self) -> (r: Player)
        ensures
            r == self.opponent(),
    {
        match self {
            Player::Player1 => Player::Player2,
            Player::Player2 => Player::Player1,
        }
    }

    /// The tile of this side's discs.
    pub fn tile(&self) -> (r: Tile)
        ensures
            r == self.tile_spec(),
    {
        match self {
            Player::Player1 => Tile::Player1,
            Player::Player2 => Tile::Player2,
        }
    }
}

/// A position of a two-player, perfect-information, zero-sum game, as the search
/// engine sees it. Positions are compared through their views: two positions with
/// one view are one position.
pub trait GameState: Sized + View {
    type Action: View;

    /// The legal actions of the side to move, in the order the position lists them.
    spec fn actions_of(s: Self::V) -> Seq<<Self::Action as View>::V>;

    /// The position that an action leads to.
    spec fn apply_to(s: Self::V, a: <Self::Action as View>::V) -> Self::V;

    /// What `apply_action` needs of its action.
    spec fn can_apply(s: Self::V, a: <Self::Action as View>::V) -> bool;

    /// No further search is meaningful: won, lost, drawn or stalled.
    spec fn terminal(s: Self::V) -> bool;

    /// Score of a position; positive favors the first player.
    spec fn score(s: Self::V) -> Option<i64>;

    /// What holds of the view of every position.
    spec fn valid(s: Self::V) -> bool;

    proof fn lemma_valid(&self)
        ensures
            Self::valid(self@),
    ;

    /// Every listed action of a position that is not terminal can be applied.
    proof fn lemma_actions_applicable(s: Self::V)
        requires
            Self::valid(s),
            !Self::terminal(s),
        ensures
            forall|i: int|
                0 <= i < Self::actions_of(s).len() ==> Self::can_apply(s, #[trigger] Self::actions_of(s)[i]),
    ;

    /// The legal actions; empty when there are none.
    fn get_possible_actions(&self) -> (r: Vec<Self::Action>)
        ensures
            r@.map_values(|a: Self::Action| a@) == Self::actions_of(self@),
    ;

    /// The position after `action`; the receiver is left as it is. The result depends on
    /// the position and the action alone.
    fn apply_action(&self, action: &Self::Action) -> (r: Self)
        requires
            Self::can_apply(self@, action@),
        ensures
            r@ == Self::apply_to(self@, action@),
    ;

    /// Whether the game is over here.
    fn is_terminal(&self) -> (r: bool)
        ensures
            r == Self::terminal(self@),
    ;

    /// The position's score, from the first player's point of view.
    fn evaluate(&self) -> (r: Option<i64>)
        ensures
            r == Self::score(self@),
    ;

    /// Whether two positions are the same.
    fn same_position(&self, other: &Self) -> (r: bool)
        ensures
            r == (self@ == other@),
    ;

    /// A copy of the position.
    fn copy_position(&self) -> (r: Self)
        ensures
            r@ == self@,
    ;
}

} // verus!
