//! Board model: the 32 playable (dark) squares of an 8x8 checkers board,
//! the side to move, and per-side live-piece counts, together with the
//! index <-> (row, column) coordinate mapping that external collaborators
//! (notation, rendering) rely on.

use vstd::prelude::*;

verus! {

/// The two players. `Red` moves first and is the reference maximizing side
/// in search; red men move toward row 0, black men toward row 7.
#[derive(Clone, Copy, Debug, PartialEq, Eq, Structural)]
pub enum Color {
    Red,
    Black,
}

impl Color {
    /// The opposing side.
    pub open spec fn spec_toggle(self) -> Color {
        match self {
            Color::Red => Color::Black,
            Color::Black => Color::Red,
        }
    }

    /// Switch to the other player, used when a turn ends.
    pub fn toggle(&self) -> (r: Color)
        ensures
            r == self.spec_toggle(),
    {
        match self {
            Color::Red => Color::Black,
            Color::Black => Color::Red,
        }
    }
}

/// Contents of one playable square.
#[derive(Clone, Copy, Debug, PartialEq, Eq, Structural)]
pub enum Square {
    Empty,
    Man(Color),
    King(Color),
}

/// Does `sq` hold a piece (man or king) of side `c`?
pub open spec fn owns(sq: Square, c: Color) -> bool {
    match sq {
        Square::Empty => false,
        Square::Man(o) => o == c,
        Square::King(o) => o == c,
    }
}

/// Does `sq` hold a man (an unpromoted piece) of side `c`?
pub open spec fn is_man_of(sq: Square, c: Color) -> bool {
    sq == Square::Man(c)
}

/// Does `sq` hold a king of side `c`?
pub open spec fn is_king_of(sq: Square, c: Color) -> bool {
    sq == Square::King(c)
}

/// Number of squares of `s` occupied by side `c`.
pub open spec fn count_pieces(s: Seq<Square>, c: Color) -> int
    decreases s.len(),
{
    if s.len() == 0 {
        0
    } else {
        count_pieces(s.drop_last(), c) + if owns(s.last(), c) {
            1int
        } else {
            0int
        }
    }
}

pub proof fn lemma_count_nonneg(s: Seq<Square>, c: Color)
    ensures
        0 <= count_pieces(s, c) <= s.len(),
    decreases s.len(),
{
    if s.len() > 0 {
        lemma_count_nonneg(s.drop_last(), c);
    }
}

pub proof fn lemma_count_push(s: Seq<Square>, x: Square, c: Color)
    ensures
        count_pieces(s.push(x), c) == count_pieces(s, c) + if owns(x, c) {
            1int
        } else {
            0int
        },
{
    assert(s.push(x).drop_last() =~= s);
    assert(s.push(x).last() == x);
}

pub proof fn lemma_count_update(s: Seq<Square>, j: int, x: Square, c: Color)
    requires
        0 <= j < s.len(),
    ensures
        count_pieces(s.update(j, x), c) == count_pieces(s, c) - (if owns(s[j], c) {
            1int
        } else {
            0int
        }) + (if owns(x, c) {
            1int
        } else {
            0int
        }),
    decreases s.len(),
{
    if j == s.len() - 1 {
        assert(s.update(j, x).drop_last() =~= s.drop_last());
        assert(s.update(j, x).last() == x);
    } else {
        assert(s.update(j, x).drop_last() =~= s.drop_last().update(j, x));
        assert(s.update(j, x).last() == s.last());
        lemma_count_update(s.drop_last(), j, x, c);
    }
}

/// A side occupying some square has a positive live count.
pub proof fn lemma_count_pos(s: Seq<Square>, j: int, c: Color)
    requires
        0 <= j < s.len(),
        owns(s[j], c),
    ensures
        count_pieces(s, c) >= 1,
    decreases s.len(),
{
    if j == s.len() - 1 {
        lemma_count_nonneg(s.drop_last(), c);
    } else {
        lemma_count_pos(s.drop_last(), j, c);
    }
}

// ------------------------------------------------------------------
// Geometry: linear square index 0..32 versus (row, column) on the 8x8
// grid, where only squares with (row + column) odd are playable.
// ------------------------------------------------------------------

pub open spec fn row_of(i: int) -> int {
    i / 4
}

pub open spec fn col_of(i: int) -> int {
    if (i / 4) % 2 == 0 {
        2 * (i % 4) + 1
    } else {
        2 * (i % 4)
    }
}

pub open spec fn on_board(r: int, c: int) -> bool {
    0 <= r < 8 && 0 <= c < 8
}

/// A coordinate pair addresses a playable (dark) square.
pub open spec fn playable(r: int, c: int) -> bool {
    on_board(r, c) && (r + c) % 2 == 1
}

pub open spec fn idx_of(r: int, c: int) -> int {
    4 * r + c / 2
}

/// The index and coordinate mappings are mutually inverse on their domains.
pub proof fn lemma_coords_roundtrip(i: int, r: int, c: int)
    ensures
        0 <= i < 32 ==> playable(row_of(i), col_of(i)) && idx_of(row_of(i), col_of(i)) == i,
        playable(r, c) ==> 0 <= idx_of(r, c) < 32 && row_of(idx_of(r, c)) == r && col_of(
            idx_of(r, c),
        ) == c,
{
    if 0 <= i < 32 {
        assert(i == 4 * (i / 4) + i % 4);
        assert(0 <= i % 4 < 4);
        assert(col_of(i) / 2 == i % 4);
        assert((row_of(i) + col_of(i)) % 2 == 1);
    }
    if playable(r, c) {
        let i2 = idx_of(r, c);
        assert(0 <= c / 2 < 4);
        assert(i2 / 4 == r);
        assert(i2 % 4 == c / 2);
        if r % 2 == 0 {
            assert(c % 2 == 1);
            assert(c == 2 * (c / 2) + 1);
        } else {
            assert(c % 2 == 0);
            assert(c == 2 * (c / 2));
        }
    }
}

// ------------------------------------------------------------------
// The board itself.
// ------------------------------------------------------------------

/// Mathematical model of a board: square contents, side to move, and the
/// two live-piece counts.
#[verifier::ext_equal]
pub struct BoardV {
    pub squares: Seq<Square>,
    pub turn: Color,
    pub red: int,
    pub black: int,
}

/// Piece counts are consistent with the square contents, and the board has
/// exactly 32 playable squares. Every exported operation preserves this.
pub open spec fn wf_board(b: BoardV) -> bool {
    &&& b.squares.len() == 32
    &&& b.red == count_pieces(b.squares, Color::Red)
    &&& b.black == count_pieces(b.squares, Color::Black)
}

/// A checkers position: the 32 playable squares in row-major order over the
/// dark squares, the side to move, and live-piece counts per side.
#[derive(Clone, Debug)]
pub struct Board {
    pub squares: Vec<Square>,
    pub turn: Color,
    pub red_pieces: u8,
    pub black_pieces: u8,
}

impl View for Board {
    type V = BoardV;

    open spec fn view(&self) -> BoardV {
        BoardV {
            squares: self.squares@,
            turn: self.turn,
            red: self.red_pieces as int,
            black: self.black_pieces as int,
        }
    }
}

impl Board {
    /// Count consistency invariant, kept by every mutation.
    pub open spec fn wf(&self) -> bool {
        wf_board(self@)
    }

    /// Create the standard initial position: black men on the twelve squares
    /// nearest row 0, red men on the twelve nearest row 7, red to move.
    pub fn new() -> (b: Board)
        ensures
            b.wf(),
            b@.turn == Color::Red,
            b@.red == 12,
            b@.black == 12,
            forall|i: int| 0 <= i < 12 ==> b@.squares[i] == Square::Man(Color::Black),
            forall|i: int| 12 <= i < 20 ==> b@.squares[i] == Square::Empty,
            forall|i: int| 20 <= i < 32 ==> b@.squares[i] == Square::Man(Color::Red),
    {
        let mut squares: Vec<Square> = Vec::new();
        let mut i: usize = 0;
        while i < 32
            invariant
                i <= 32,
                squares@.len() == i,
                forall|j: int| 0 <= j < i && j < 12 ==> squares@[j] == Square::Man(Color::Black),
                forall|j: int| 12 <= j < i && j < 20 ==> squares@[j] == Square::Empty,
                forall|j: int| 20 <= j < i ==> squares@[j] == Square::Man(Color::Red),
                count_pieces(squares@, Color::Black) == if i <= 12 {
                    i as int
                } else {
                    12int
                },
                count_pieces(squares@, Color::Red) == if i <= 20 {
                    0int
                } else {
                    i - 20
                },
            decreases 32 - i,
        {
            let sq: Square = if i < 12 {
                Square::Man(Color::Black)
            } else if i < 20 {
                Square::Empty
            } else {
                Square::Man(Color::Red)
            };
            proof {
                lemma_count_push(squares@, sq, Color::Red);
                lemma_count_push(squares@, sq, Color::Black);
            }
            squares.push(sq);
            i = i + 1;
        }
        Board { squares, turn: Color::Red, red_pieces: 12, black_pieces: 12 }
    }

    /// Copy of this position with identical contents; search branches each
    /// work on their own copy.
    pub fn duplicate(&self) -> (b: Board)
        ensures
            b@ == self@,
    {
        let mut squares: Vec<Square> = Vec::new();
        let mut i: usize = 0;
        while i < self.squares.len()
            invariant
                i <= self.squares@.len(),
                squares@.len() == i,
                forall|j: int| 0 <= j < i ==> squares@[j] == self.squares@[j],
            decreases self.squares@.len() - i,
        {
            squares.push(self.squares[i]);
            i = i + 1;
        }
        proof {
            assert(squares@ =~= self.squares@);
        }
        Board {
            squares,
            turn: self.turn,
            red_pieces: self.red_pieces,
            black_pieces: self.black_pieces,
        }
    }

    /// Map a square index to its (row, column) coordinates on the 8x8 grid.
    pub fn index_to_coords(&self, index: usize) -> (rc: (usize, usize))
        requires
            index < 32,
        ensures
            rc.0 == row_of(index as int),
            rc.1 == col_of(index as int),
            rc.0 < 8,
            rc.1 < 8,
    {
        let row = index / 4;
        let col = if row % 2 == 0 {
            (index % 4) * 2 + 1
        } else {
            (index % 4) * 2
        };
        (row, col)
    }

    /// Map (row, column) coordinates to the index of the playable square
    /// they address, or `None` when off-board or on a light square.
    pub fn coords_to_index(&self, row: i32, col: i32) -> (r: Option<usize>)
        ensures
            r == if playable(row as int, col as int) {
                Some(idx_of(row as int, col as int) as usize)
            } else {
                None::<usize>
            },
            r is Some ==> r->0 < 32,
    {
        if row < 0 || row >= 8 || col < 0 || col >= 8 {
            return None;
        }
        if (row + col) % 2 == 0 {
            return None;
        }
        let idx = (row as usize) * 4 + (col as usize) / 2;
        Some(idx)
    }
}

} // verus!
