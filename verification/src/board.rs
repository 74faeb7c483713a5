//! The 3x3 grid: players, tile coordinates and the board itself.

use vstd::prelude::*;

verus! {

/// One of the two participants of a match, identified by symbol alone.
#[derive(Debug, PartialEq, Eq, Structural, Clone, Copy)]
pub enum Player {
    O,
    X,
}

impl Player {
    /// The opposing symbol.
    pub open spec fn spec_opposite(self) -> Player {
        match self {
            Player::O => Player::X,
            Player::X => Player::O,
        }
    }

    /// Negation: flips `O` to `X` and back.
    pub fn opposite(self) -> (r: Player)
        ensures
            r == self.spec_opposite(),
    {
        match self {
            Player::O => Player::X,
            Player::X => Player::O,
        }
    }

    /// The symbol as text.
    pub open spec fn spec_label(self) -> Seq<char> {
        match self {
            Player::O => "O"@,
            Player::X => "X"@,
        }
    }

    pub fn label(self) -> (r: &'static str)
        ensures
            r@ == self.spec_label(),
    {
        match self {
            Player::O => "O",
            Player::X => "X",
        }
    }
}

impl Default for Player {
    /// `O` is the distinguished default symbol; it also moves first.
    fn default() -> (r: Player)
        ensures
            r == Player::O,
    {
        Player::O
    }
}

/// Identifies one of the nine board cells.
///
/// Cells are addressed by file (`A`-`C`) crossed with rank (`1`-`3`) and
/// stored as the linear index `rank * 3 + file`, zero-based:
/// ```text
/// rank 3: 6 7 8
/// rank 2: 3 4 5
/// rank 1: 0 1 2
///         A B C
/// ```
#[derive(Debug, PartialEq, Eq, Structural, Clone, Copy)]
pub struct TileId(u8);

impl View for TileId {
    type V = int;

    closed spec fn view(&self) -> int {
        self.0 as int
    }
}

/// Index of the file letter within a rank, if the character is one.
pub open spec fn spec_file_of(c: char) -> Option<int> {
    if c == 'a' || c == 'A' {
        Some(0int)
    } else if c == 'b' || c == 'B' {
        Some(1int)
    } else if c == 'c' || c == 'C' {
        Some(2int)
    } else {
        None
    }
}

/// Index of the rank digit, if the character is one.
pub open spec fn spec_rank_of(c: char) -> Option<int> {
    if c == '1' {
        Some(0int)
    } else if c == '2' {
        Some(1int)
    } else if c == '3' {
        Some(2int)
    } else {
        None
    }
}

/// The linear index named by a two-character coordinate such as `"b2"`,
/// case-insensitively; `None` when the text is not a coordinate.
pub open spec fn spec_tile_of(s: Seq<char>) -> Option<int> {
    if s.len() != 2 {
        None
    } else {
        match (spec_file_of(s[0]), spec_rank_of(s[1])) {
            (Some(f), Some(r)) => Some(r * 3 + f),
            _ => None,
        }
    }
}

impl TileId {
    #[verifier::type_invariant]
    spec fn type_inv(self) -> bool {
        self.0 < 9
    }

    /// The linear index, always below nine.
    pub fn index(self) -> (i: u8)
        ensures
            i as int == self@,
            i < 9,
    {
        proof {
            use_type_invariant(self);
        }
        self.0
    }

    /// The tile at a linear index, if the index addresses a cell.
    pub fn from_index(i: u8) -> (r: Option<TileId>)
        ensures
            match r {
                Some(t) => i < 9 && t@ == i as int,
                None => i >= 9,
            },
    {
        if i < 9 {
            Some(TileId(i))
        } else {
            None
        }
    }

    /// Parses a textual coordinate such as `"b2"` or `"B2"`.
    pub fn from_str(s: &str) -> (r: Result<TileId, ()>)
        ensures
            match r {
                Ok(t) => spec_tile_of(s@) == Some(t@),
                Err(_) => spec_tile_of(s@) is None,
            },
    {
        if s.unicode_len() != 2 {
            return Err(());
        }
        let c0 = s.get_char(0);
        let c1 = s.get_char(1);
        let file: u8 = if c0 == 'a' || c0 == 'A' {
            0
        } else if c0 == 'b' || c0 == 'B' {
            1
        } else if c0 == 'c' || c0 == 'C' {
            2
        } else {
            return Err(());
        };
        let rank: u8 = if c1 == '1' {
            0
        } else if c1 == '2' {
            1
        } else if c1 == '3' {
            2
        } else {
            return Err(());
        };
        Ok(TileId(rank * 3 + file))
    }
}

/// The nine cells, each empty or occupied by a player.
///
/// A cell, once occupied, is never cleared or reassigned: the only mutator,
/// [`Board::mark`], demands an empty cell and writes exactly one.
#[derive(Debug, PartialEq, Eq, Clone, Copy)]
pub struct Board {
    tiles: [Option<Player>; 9],
}

impl View for Board {
    type V = Seq<Option<Player>>;

    closed spec fn view(&self) -> Seq<Option<Player>> {
        self.tiles@
    }
}

/// How many of the cells are occupied.
pub open spec fn count_marks(s: Seq<Option<Player>>) -> nat
    decreases s.len(),
{
    if s.len() == 0 {
        0
    } else {
        count_marks(s.drop_last()) + if s.last() is Some {
            1nat
        } else {
            0nat
        }
    }
}

impl Board {
    /// The empty board.
    pub fn new() -> (r: Board)
        ensures
            r@ == Seq::new(9, |i: int| None::<Player>),
            r@.len() == 9,
    {
        let tiles: [Option<Player>; 9] = [None, None, None, None, None, None, None, None, None];
        let r = Board { tiles };
        proof {
            assert(r@ =~= Seq::new(9, |i: int| None::<Player>));
        }
        r
    }

    pub broadcast proof fn lemma_len(self)
        ensures
            #[trigger] self@.len() == 9,
    {
    }

    /// A board holding the given nine cells.
    pub fn from_cells(cells: &Vec<Option<Player>>) -> (r: Board)
        requires
            cells@.len() == 9,
        ensures
            r@ == cells@,
    {
        let tiles: [Option<Player>; 9] = [
            cells[0],
            cells[1],
            cells[2],
            cells[3],
            cells[4],
            cells[5],
            cells[6],
            cells[7],
            cells[8],
        ];
        let r = Board { tiles };
        proof {
            assert(r@ =~= cells@);
        }
        r
    }

    /// The cell at a linear index.
    pub fn cell(&self, i: usize) -> (r: Option<Player>)
        requires
            i < 9,
        ensures
            r == self@[i as int],
    {
        self.tiles[i]
    }

    /// The cell under a tile.
    pub fn get(&self, tile: TileId) -> (r: Option<Player>)
        ensures
            r == self@[tile@],
    {
        proof {
            use_type_invariant(tile);
        }
        self.tiles[tile.index() as usize]
    }

    /// Writes `player` into `tile` unconditionally; the caller must have
    /// validated that the tile is empty and that it is that player's turn.
    pub fn mark(&mut self, tile: TileId, player: Player)
        requires
            old(self)@[tile@] is None,
        ensures
            final(self)@ == old(self)@.update(tile@, Some(player)),
    {
        proof {
            use_type_invariant(tile);
        }
        self.tiles[tile.index() as usize] = Some(player);
    }

    /// The number of occupied cells; non-decreasing over a game's lifetime.
    pub fn mark_count(&self) -> (r: u8)
        ensures
            r as nat == count_marks(self@),
    {
        let mut cnt: u8 = 0;
        let mut i: usize = 0;
        while i < 9
            invariant
                i <= 9,
                cnt as nat == count_marks(self@.take(i as int)),
                cnt <= i,
            decreases 9 - i,
        {
            proof {
                assert(self@.take(i + 1).drop_last() =~= self@.take(i as int));
                assert(self@.take(i + 1).last() == self@[i as int]);
            }
            if self.tiles[i].is_some() {
                cnt = cnt + 1;
            }
            i = i + 1;
        }
        proof {
            assert(self@.take(9) =~= self@);
        }
        cnt
    }
}

impl Default for Board {
    /// The empty board.
    fn default() -> (r: Board)
        ensures
            r@ == Seq::new(9, |i: int| None::<Player>),
    {
        Board::new()
    }
}

} // verus!
