//! Rule engine: applying a validated move to a position — relocating the
//! piece, removing captured pieces, crowning on the back rank, flipping the
//! turn — and the terminal checks (no pieces, or no legal reply).

use vstd::prelude::*;

use crate::board::Board;
use crate::board::BoardV;
use crate::board::Color;
use crate::board::Square;
use crate::board::count_pieces;
use crate::board::lemma_count_pos;
use crate::board::lemma_count_update;
use crate::board::owns;
use crate::board::row_of;
use crate::board::wf_board;
use crate::mv::Move;
use crate::mv::MoveSpec;
use crate::mv::any_capture;
use crate::mv::any_step;
use crate::mv::as_ints;
use crate::mv::has_capture;
use crate::mv::has_simple;
use crate::mv::is_opponent;
use crate::mv::is_valid_move;
use crate::mv::lemma_diag;
use crate::mv::promo_row;
use crate::mv::promote;
use crate::mv::seg_dir_ok;
use crate::mv::seg_ok;
use crate::mv::simple_dir_ok;
use crate::mv::spec_is_legal;

verus! {

/// Returned when a candidate move fails the legality check; the position is
/// left unchanged.
#[derive(Clone, Copy, Debug, PartialEq, Eq, Structural)]
pub struct RejectedMove;

/// `s` with the first `k` capture squares cleared, in capture order.
pub open spec fn clear_upto(s: Seq<Square>, caps: Seq<int>, k: int) -> Seq<Square>
    decreases k,
{
    if k <= 0 {
        s
    } else {
        clear_upto(s, caps, k - 1).update(caps[k - 1], Square::Empty)
    }
}

pub proof fn lemma_clear_upto(s: Seq<Square>, caps: Seq<int>, k: int, i: int)
    requires
        0 <= k <= caps.len(),
        0 <= i < s.len(),
        forall|j: int| 0 <= j < k ==> 0 <= #[trigger] caps[j] < s.len(),
    ensures
        clear_upto(s, caps, k).len() == s.len(),
        clear_upto(s, caps, k)[i] == if exists|j: int| 0 <= j < k && caps[j] == i {
            Square::Empty
        } else {
            s[i]
        },
    decreases k,
{
    if k > 0 {
        lemma_clear_upto(s, caps, k - 1, i);
        if caps[k - 1] == i {
            assert(exists|j: int| 0 <= j < k && caps[j] == i);
        } else {
            assert((exists|j: int| 0 <= j < k && caps[j] == i) == (exists|j: int|
                0 <= j < k - 1 && caps[j] == i)) by {
                if exists|j: int| 0 <= j < k && caps[j] == i {
                    let j = choose|j: int| 0 <= j < k && caps[j] == i;
                    assert(0 <= j < k - 1 && caps[j] == i);
                }
            }
        }
    }
}

/// The piece that comes to rest on the destination square: the moved piece,
/// crowned if it is a man arriving on the opponent's back rank.
pub open spec fn moved_piece(b: BoardV, m: MoveSpec) -> Square {
    let p = b.squares[m.from];
    match p {
        Square::Man(c) => if row_of(m.to) == promo_row(c) {
            Square::King(c)
        } else {
            p
        },
        _ => p,
    }
}

/// The position after a legal move: the origin square cleared, every
/// captured square cleared, the moved piece (crowned if due) on the
/// destination, counts consistent, and the turn flipped.
pub open spec fn spec_apply(b: BoardV, m: MoveSpec) -> BoardV {
    let cleared = clear_upto(
        b.squares.update(m.from, Square::Empty),
        m.captures,
        m.captures.len() as int,
    );
    let sq2 = cleared.update(m.to, moved_piece(b, m));
    BoardV {
        squares: sq2,
        turn: b.turn.spec_toggle(),
        red: count_pieces(sq2, Color::Red),
        black: count_pieces(sq2, Color::Black),
    }
}

/// Facts every legal move provides, used when applying it: all indices on
/// the board, origin held by the mover, destination empty, captured squares
/// distinct opponent pieces, none of them the origin or destination.
pub proof fn lemma_legal_facts(b: BoardV, m: MoveSpec)
    requires
        spec_is_legal(b, m),
    ensures
        0 <= m.from < 32,
        0 <= m.to < 32,
        owns(b.squares[m.from], b.turn),
        b.squares[m.to] == Square::Empty,
        m.from != m.to,
        forall|k: int| 0 <= k < m.captures.len() ==> 0 <= #[trigger] m.captures[k] < 32,
        forall|k: int|
            0 <= k < m.captures.len() ==> is_opponent(b.squares[#[trigger] m.captures[k]], b.turn),
        forall|k: int|
            0 <= k < m.captures.len() ==> #[trigger] m.captures[k] != m.from && m.captures[k]
                != m.to,
        forall|j: int, k: int|
            0 <= j < k < m.captures.len() ==> m.captures[j] != m.captures[k],
{
    if m.captures.len() > 0 {
        let path = m.path;
        let caps = m.captures;
        let n = path.len() as int;
        // Destination: the landing square of the final hop is empty.
        let nl = n - 2;
        assert(seg_ok(b, path, caps, nl));
        let dl = choose|d: int| seg_dir_ok(b, path, caps, nl, d);
        assert(b.squares[path[n - 1]] == Square::Empty);
        assert forall|k: int| 0 <= k < caps.len() implies 0 <= #[trigger] caps[k] < 32
            && is_opponent(b.squares[caps[k]], b.turn) && caps[k] != m.from && caps[k] != m.to by {
            assert(seg_ok(b, path, caps, k));
            let d = choose|d: int| seg_dir_ok(b, path, caps, k, d);
            lemma_diag(path[k], d);
        }
        assert forall|j: int, k: int| 0 <= j < k < caps.len() implies caps[j] != caps[k] by {
            assert(seg_ok(b, path, caps, k));
            let d = choose|d: int| seg_dir_ok(b, path, caps, k, d);
        }
    } else {
        let d = choose|d: int| simple_dir_ok(b, m.from, m.to, d);
        lemma_diag(m.from, d);
    }
}

/// A legal move keeps the board well-formed once applied.
pub proof fn lemma_apply_wf(b: BoardV, m: MoveSpec)
    requires
        wf_board(b),
        spec_is_legal(b, m),
    ensures
        wf_board(spec_apply(b, m)),
{
    lemma_legal_facts(b, m);
    let s1 = b.squares.update(m.from, Square::Empty);
    lemma_clear_upto(s1, m.captures, m.captures.len() as int, 0);
}

/// `spec_terminal` holds when either side is out of pieces or the side to
/// move has no legal action; having no moves is a loss, not a draw.
pub open spec fn spec_terminal(b: BoardV) -> bool {
    b.red == 0 || b.black == 0 || (!has_capture(b) && !has_simple(b))
}

/// The winner of a finished game: the opponent of the side with no pieces,
/// or the opponent of a side to move that has no legal reply.
pub open spec fn spec_winner(b: BoardV) -> Option<Color> {
    if b.red == 0 {
        Some(Color::Black)
    } else if b.black == 0 {
        Some(Color::Red)
    } else if !has_capture(b) && !has_simple(b) {
        Some(b.turn.spec_toggle())
    } else {
        None
    }
}

impl Board {
    /// Is the game over: a side has no pieces left, or the side to move has
    /// no legal action.
    pub fn is_game_over(&self) -> (r: bool)
        requires
            self.wf(),
        ensures
            r == spec_terminal(self@),
    {
        if self.red_pieces == 0 || self.black_pieces == 0 {
            return true;
        }
        !any_capture(self) && !any_step(self)
    }

    /// The winner of a finished game, `None` while play continues.
    pub fn get_winner(&self) -> (r: Option<Color>)
        requires
            self.wf(),
        ensures
            r == spec_winner(self@),
    {
        if self.red_pieces == 0 {
            return Some(Color::Black);
        }
        if self.black_pieces == 0 {
            return Some(Color::Red);
        }
        if !any_capture(self) && !any_step(self) {
            return Some(self.turn.toggle());
        }
        None
    }

    /// Decrease the live count of the side owning a just-captured piece.
    fn update_piece_count(&mut self, captured: Square)
        requires
            owns(captured, Color::Red) ==> old(self).red_pieces >= 1,
            owns(captured, Color::Black) ==> old(self).black_pieces >= 1,
        ensures
            final(self).squares == old(self).squares,
            final(self).turn == old(self).turn,
            final(self).red_pieces as int == old(self).red_pieces - (if owns(captured, Color::Red) {
                1int
            } else {
                0int
            }),
            final(self).black_pieces as int == old(self).black_pieces - (if owns(
                captured,
                Color::Black,
            ) {
                1int
            } else {
                0int
            }),
    {
        match captured {
            Square::Man(Color::Red) | Square::King(Color::Red) => {
                self.red_pieces = self.red_pieces - 1;
            },
            Square::Man(Color::Black) | Square::King(Color::Black) => {
                self.black_pieces = self.black_pieces - 1;
            },
            Square::Empty => {},
        }
    }

    /// Execute a validated move on this board: relocate the piece along the
    /// path, clear each captured square and decrement the opposing count
    /// once per capture, crown a man arriving on the opponent's back rank,
    /// and flip the side to move. An illegal candidate is rejected without
    /// any change to the position.
    pub fn make_move(&mut self, m: &Move) -> (r: Result<(), RejectedMove>)
        requires
            old(self).wf(),
        ensures
            r is Ok <==> spec_is_legal(old(self)@, m@),
            r is Ok ==> final(self)@ == spec_apply(old(self)@, m@) && final(self).wf(),
            r is Err ==> *final(self) == *old(self),
    {
        if !is_valid_move(self, m) {
            return Err(RejectedMove);
        }
        proof {
            lemma_legal_facts(self@, m@);
        }
        let ghost b0 = self@;
        let ghost caps = m@.captures;
        let ghost s1 = b0.squares.update(m@.from, Square::Empty);
        let piece = self.squares[m.from];
        self.squares[m.from] = Square::Empty;
        proof {
            lemma_count_update(b0.squares, m@.from, Square::Empty, Color::Red);
            lemma_count_update(b0.squares, m@.from, Square::Empty, Color::Black);
        }
        let mut k: usize = 0;
        while k < m.captures.len()
            invariant
                k <= caps.len(),
                caps == m@.captures,
                self.squares@.len() == 32,
                s1.len() == 32,
                self.squares@ == clear_upto(s1, caps, k as int),
                self.turn == b0.turn,
                piece == b0.squares[m@.from],
                owns(piece, b0.turn),
                self.red_pieces as int == count_pieces(self.squares@, Color::Red) + (if owns(
                    piece,
                    Color::Red,
                ) {
                    1int
                } else {
                    0int
                }),
                self.black_pieces as int == count_pieces(self.squares@, Color::Black) + (if owns(
                    piece,
                    Color::Black,
                ) {
                    1int
                } else {
                    0int
                }),
                forall|j: int| 0 <= j < caps.len() ==> 0 <= #[trigger] caps[j] < 32,
                forall|j: int|
                    0 <= j < caps.len() ==> is_opponent(s1[#[trigger] caps[j]], b0.turn),
                forall|j: int, k0: int| 0 <= j < k0 < caps.len() ==> caps[j] != caps[k0],
            decreases caps.len() - k,
        {
            let ghost cur = self.squares@;
            let cap = m.captures[k];
            proof {
                assert(as_ints(m.captures@)[k as int] == cap as int);
                lemma_clear_upto(s1, caps, k as int, cap as int);
                assert(cur[cap as int] == s1[cap as int]);
                assert(is_opponent(cur[cap as int], b0.turn));
                if owns(cur[cap as int], Color::Red) {
                    lemma_count_pos(cur, cap as int, Color::Red);
                }
                if owns(cur[cap as int], Color::Black) {
                    lemma_count_pos(cur, cap as int, Color::Black);
                }
            }
            let captured = self.squares[cap];
            self.squares[cap] = Square::Empty;
            proof {
                lemma_count_update(cur, cap as int, Square::Empty, Color::Red);
                lemma_count_update(cur, cap as int, Square::Empty, Color::Black);
            }
            self.update_piece_count(captured);
            k = k + 1;
        }
        let ghost cleared = self.squares@;
        proof {
            lemma_clear_upto(s1, caps, caps.len() as int, m@.to);
            assert(cleared[m@.to] == Square::Empty);
        }
        self.squares[m.to] = piece;
        proof {
            lemma_count_update(cleared, m@.to, piece, Color::Red);
            lemma_count_update(cleared, m@.to, piece, Color::Black);
        }
        if promote(self, m.to) {
            let crowned = match piece {
                Square::Man(c) => Square::King(c),
                other => other,
            };
            let ghost placed = self.squares@;
            self.squares[m.to] = crowned;
            proof {
                lemma_count_update(placed, m@.to, crowned, Color::Red);
                lemma_count_update(placed, m@.to, crowned, Color::Black);
                assert(self.squares@ =~= cleared.update(m@.to, moved_piece(b0, m@)));
            }
        } else {
            proof {
                assert(self.squares@ =~= cleared.update(m@.to, moved_piece(b0, m@)));
            }
        }
        self.turn = self.turn.toggle();
        proof {
            assert(self@ =~= spec_apply(b0, m@));
        }
        Ok(())
    }

    /// Pure-value variant of applying a move: the input position is left
    /// untouched and a fully updated copy is returned, so many sibling
    /// search branches can be derived from one shared parent value.
    pub fn apply_move(&self, m: &Move) -> (r: Result<Board, RejectedMove>)
        requires
            self.wf(),
        ensures
            r is Ok <==> spec_is_legal(self@, m@),
            r is Ok ==> (r matches Ok(b2) && b2@ == spec_apply(self@, m@) && b2.wf()),
    {
        let mut b = self.duplicate();
        match b.make_move(m) {
            Ok(()) => Ok(b),
            Err(e) => Err(e),
        }
    }
}

} // verus!
