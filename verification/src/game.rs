//! The turn state machine over a board, and the conclusion check.

use vstd::prelude::*;

use crate::board::{count_marks, Board, Player, TileId};

verus! {

/// How a finished game ended.
#[derive(Debug, PartialEq, Eq, Structural, Clone, Copy)]
pub enum Conclusion {
    Win(Player),
    Draw,
}

/// Where a game stands: somebody's turn, or over.
///
/// The only transitions are `Playing -> Playing` (a turn flip) and
/// `Playing -> Concluded`; a concluded game never returns to play.
#[derive(Debug, PartialEq, Eq, Structural, Clone, Copy)]
pub enum State {
    Playing(Player),
    Concluded(Conclusion),
}

/// A match in progress: the grid plus the turn state machine.
#[derive(Debug, PartialEq, Eq, Clone, Copy)]
pub struct Game {
    pub board: Board,
    pub state: State,
}

/// Three given cells all occupied by `p`.
pub open spec fn wins_line(b: Seq<Option<Player>>, p: Player, i: int, j: int, k: int) -> bool {
    b[i] == Some(p) && b[j] == Some(p) && b[k] == Some(p)
}

/// `p` holds one of the eight standard lines: three rows, three columns,
/// two diagonals.
pub open spec fn is_winner(b: Seq<Option<Player>>, p: Player) -> bool {
    ||| wins_line(b, p, 0, 1, 2)
    ||| wins_line(b, p, 3, 4, 5)
    ||| wins_line(b, p, 6, 7, 8)
    ||| wins_line(b, p, 0, 3, 6)
    ||| wins_line(b, p, 1, 4, 7)
    ||| wins_line(b, p, 2, 5, 8)
    ||| wins_line(b, p, 0, 4, 8)
    ||| wins_line(b, p, 2, 4, 6)
}

/// The winner that the conclusion check reports, examining the eight lines
/// anchored at the corner and centre cells in a fixed order.  On boards
/// reachable by alternating play at most one player can hold a line, so the
/// order is unobservable; it is fixed here so that the check is a function.
pub open spec fn spec_winner(b: Seq<Option<Player>>) -> Option<Player> {
    if b[0] is Some && ((b[6] == b[0] && b[3] == b[0]) || (b[2] == b[0] && b[1] == b[0]) || (b[8]
        == b[0] && b[4] == b[0])) {
        b[0]
    } else if b[2] is Some && ((b[8] == b[2] && b[5] == b[2]) || (b[6] == b[2] && b[4] == b[2])) {
        b[2]
    } else if b[4] is Some && ((b[3] == b[4] && b[5] == b[4]) || (b[1] == b[4] && b[7] == b[4])) {
        b[4]
    } else if b[6] is Some && (b[8] == b[6] && b[7] == b[6]) {
        b[6]
    } else {
        None
    }
}

/// What the conclusion check returns: nothing below three marks, a win when
/// a line is held, a draw on a full board, nothing otherwise.
pub open spec fn spec_conclusion(b: Seq<Option<Player>>) -> Option<Conclusion> {
    if count_marks(b) < 3 {
        None
    } else {
        match spec_winner(b) {
            Some(p) => Some(Conclusion::Win(p)),
            None => if count_marks(b) == 9 {
                Some(Conclusion::Draw)
            } else {
                None
            },
        }
    }
}

proof fn lemma_count_ge_1(b: Seq<Option<Player>>, i: int)
    requires
        0 <= i < b.len(),
        b[i] is Some,
    ensures
        count_marks(b) >= 1,
    decreases b.len(),
{
    if i < b.len() - 1 {
        lemma_count_ge_1(b.drop_last(), i);
    }
}

proof fn lemma_count_ge_2(b: Seq<Option<Player>>, i: int, j: int)
    requires
        0 <= i < j < b.len(),
        b[i] is Some,
        b[j] is Some,
    ensures
        count_marks(b) >= 2,
    decreases b.len(),
{
    if j < b.len() - 1 {
        lemma_count_ge_2(b.drop_last(), i, j);
    } else {
        lemma_count_ge_1(b.drop_last(), i);
    }
}

proof fn lemma_count_ge_3(b: Seq<Option<Player>>, i: int, j: int, k: int)
    requires
        0 <= i < j < k < b.len(),
        b[i] is Some,
        b[j] is Some,
        b[k] is Some,
    ensures
        count_marks(b) >= 3,
    decreases b.len(),
{
    if k < b.len() - 1 {
        lemma_count_ge_3(b.drop_last(), i, j, k);
    } else {
        lemma_count_ge_2(b.drop_last(), i, j);
    }
}

/// A held line means at least three marks on the board.
pub proof fn lemma_line_needs_three_marks(b: Seq<Option<Player>>, p: Player)
    requires
        b.len() == 9,
        is_winner(b, p),
    ensures
        count_marks(b) >= 3,
{
    if wins_line(b, p, 0, 1, 2) {
        lemma_count_ge_3(b, 0, 1, 2);
    } else if wins_line(b, p, 3, 4, 5) {
        lemma_count_ge_3(b, 3, 4, 5);
    } else if wins_line(b, p, 6, 7, 8) {
        lemma_count_ge_3(b, 6, 7, 8);
    } else if wins_line(b, p, 0, 3, 6) {
        lemma_count_ge_3(b, 0, 3, 6);
    } else if wins_line(b, p, 1, 4, 7) {
        lemma_count_ge_3(b, 1, 4, 7);
    } else if wins_line(b, p, 2, 5, 8) {
        lemma_count_ge_3(b, 2, 5, 8);
    } else if wins_line(b, p, 0, 4, 8) {
        lemma_count_ge_3(b, 0, 4, 8);
    } else {
        lemma_count_ge_3(b, 2, 4, 6);
    }
}

/// No false win: whenever the conclusion check reports a win, the winner
/// really holds one of the eight lines.
pub proof fn lemma_conclusion_win_has_line(b: Seq<Option<Player>>, p: Player)
    requires
        b.len() == 9,
        spec_conclusion(b) == Some(Conclusion::Win(p)),
    ensures
        is_winner(b, p),
{
}

/// On a board with exactly three marks and no held line, the conclusion
/// check reports nothing: three marks never conclude a game prematurely.
pub proof fn lemma_three_marks_without_line_is_open(b: Seq<Option<Player>>)
    requires
        b.len() == 9,
        count_marks(b) == 3,
        forall|p: Player| !is_winner(b, p),
    ensures
        spec_conclusion(b) is None,
{
    match spec_winner(b) {
        Some(p) => lemma_conclusion_win_has_line(b, p),
        None => (),
    }
}

/// When exactly one player holds a line, the check reports that player's
/// win, whichever lines are held.
pub proof fn lemma_sole_line_holder_wins(b: Seq<Option<Player>>, p: Player)
    requires
        b.len() == 9,
        is_winner(b, p),
        !is_winner(b, p.spec_opposite()),
    ensures
        spec_conclusion(b) == Some(Conclusion::Win(p)),
{
    lemma_line_needs_three_marks(b, p);
    match spec_winner(b) {
        Some(q) => {
            lemma_conclusion_win_has_line(b, q);
            if q != p {
                assert(q == p.spec_opposite());
            }
        },
        None => (),
    }
}

/// Any two results of the conclusion check on one and the same board are
/// equal: the check is a function of the board alone.
pub proof fn lemma_conclusion_check_idempotent(
    b: Seq<Option<Player>>,
    r1: Option<Conclusion>,
    r2: Option<Conclusion>,
)
    requires
        r1 == spec_conclusion(b),
        r2 == spec_conclusion(b),
    ensures
        r1 == r2,
{
}

fn cell_eq(a: Option<Player>, b: Option<Player>) -> (r: bool)
    ensures
        r == (a == b),
{
    match (a, b) {
        (None, None) => true,
        (Some(x), Some(y)) => x == y,
        _ => false,
    }
}

impl Game {
    /// A fresh game on an empty board with `first_turn` to move.
    pub fn new(first_turn: Player) -> (g: Game)
        ensures
            g.board@ == Seq::new(9, |i: int| None::<Player>),
            g.state == State::Playing(first_turn),
    {
        Game { board: Board::new(), state: State::Playing(first_turn) }
    }

    /// True iff the tile is currently unoccupied.
    pub fn is_valid_mark(&self, tile: TileId) -> (r: bool)
        ensures
            r == (self.board@[tile@] is None),
    {
        self.board.get(tile).is_none()
    }

    /// Marks the tile for whoever's turn it is.  An occupied tile, or a
    /// concluded game, is rejected and leaves the game untouched.
    pub fn try_mark_tile(&mut self, tile: TileId) -> (r: bool)
        ensures
            match old(self).state {
                State::Playing(turn) => if old(self).board@[tile@] is None {
                    r && final(self).board@ == old(self).board@.update(tile@, Some(turn))
                        && final(self).state == old(self).state
                } else {
                    !r && *final(self) == *old(self)
                },
                State::Concluded(_) => !r && *final(self) == *old(self),
            },
    {
        if !self.is_valid_mark(tile) {
            return false;
        }
        match self.state {
            State::Concluded(_) => false,
            State::Playing(turn) => {
                self.board.mark(tile, turn);
                true
            },
        }
    }

    /// Evaluates the eight lines: a win when one is held, a draw when all
    /// nine cells are marked, nothing while fewer than three marks exist.
    pub fn has_game_concluded(&self) -> (r: Option<Conclusion>)
        ensures
            r == spec_conclusion(self.board@),
    {
        proof {
            self.board.lemma_len();
        }
        let mark_count = self.board.mark_count();
        if mark_count < 3 {
            return None;
        }
        let a1 = self.board.cell(0);
        let b1 = self.board.cell(1);
        let c1 = self.board.cell(2);
        let a2 = self.board.cell(3);
        let b2 = self.board.cell(4);
        let c2 = self.board.cell(5);
        let a3 = self.board.cell(6);
        let b3 = self.board.cell(7);
        let c3 = self.board.cell(8);

        if let Some(player) = a1 {
            if (cell_eq(a1, a3) && cell_eq(a1, a2)) || (cell_eq(a1, c1) && cell_eq(a1, b1)) || (
            cell_eq(a1, c3) && cell_eq(a1, b2)) {
                return Some(Conclusion::Win(player));
            }
        }
        if let Some(player) = c1 {
            if (cell_eq(c1, c3) && cell_eq(c1, c2)) || (cell_eq(c1, a3) && cell_eq(c1, b2)) {
                return Some(Conclusion::Win(player));
            }
        }
        if let Some(player) = b2 {
            if (cell_eq(b2, a2) && cell_eq(b2, c2)) || (cell_eq(b2, b1) && cell_eq(b2, b3)) {
                return Some(Conclusion::Win(player));
            }
        }
        if let Some(player) = a3 {
            if cell_eq(a3, c3) && cell_eq(c3, b3) {
                return Some(Conclusion::Win(player));
            }
        }
        if mark_count == 9 {
            return Some(Conclusion::Draw);
        }
        None
    }

    /// Advances the state machine after a mark: a concluded game stays
    /// concluded, an open one either concludes or flips the turn.
    pub fn next_turn(&mut self)
        ensures
            final(self).board == old(self).board,
            final(self).state == match old(self).state {
                State::Concluded(_) => old(self).state,
                State::Playing(p) => match spec_conclusion(old(self).board@) {
                    Some(c) => State::Concluded(c),
                    None => State::Playing(p.spec_opposite()),
                },
            },
    {
        if let State::Playing(player) = self.state {
            if let Some(conclusion) = self.has_game_concluded() {
                self.state = State::Concluded(conclusion);
            } else {
                self.state = State::Playing(player.opposite());
            }
        }
    }
}

} // verus!
