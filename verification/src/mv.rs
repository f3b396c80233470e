//! Moves and the rule engine's legality check: a move is an ordered path of
//! squares plus the squares captured along it; a candidate is legal when
//! every hop is a permitted diagonal jump over an opponent piece, or a
//! one-square diagonal advance when no capture is available anywhere
//! (mandatory-capture law).

use vstd::prelude::*;

use crate::board::Board;
use crate::board::BoardV;
use crate::board::Color;
use crate::board::Square;
use crate::board::col_of;
use crate::board::idx_of;
use crate::board::lemma_coords_roundtrip;
use crate::board::on_board;
use crate::board::owns;
use crate::board::playable;
use crate::board::row_of;

verus! {

/// Mathematical model of a move: origin, final destination, the capture
/// squares (one per hop for a capture, none for a simple advance), and the
/// full path of waypoints including origin and destination.
#[verifier::ext_equal]
pub struct MoveSpec {
    pub from: int,
    pub to: int,
    pub captures: Seq<int>,
    pub path: Seq<int>,
}

/// A sequence of square indices seen as mathematical integers.
pub open spec fn as_ints(s: Seq<usize>) -> Seq<int> {
    s.map_values(|x: usize| x as int)
}

pub proof fn lemma_as_ints_push(s: Seq<usize>, x: usize)
    ensures
        as_ints(s.push(x)) == as_ints(s).push(x as int),
{
    assert(as_ints(s.push(x)) =~= as_ints(s).push(x as int));
}

/// A move: an ordered path of board squares (origin first, destination
/// last) and the list of captured squares, one per jump segment.
#[derive(Clone, Debug)]
pub struct Move {
    pub from: usize,
    pub to: usize,
    pub captures: Vec<usize>,
    pub path: Vec<usize>,
}

impl View for Move {
    type V = MoveSpec;

    open spec fn view(&self) -> MoveSpec {
        MoveSpec {
            from: self.from as int,
            to: self.to as int,
            captures: as_ints(self.captures@),
            path: as_ints(self.path@),
        }
    }
}

impl Move {
    /// A move with the two-square path `from -> to`.
    pub fn new(from: usize, to: usize, captures: Vec<usize>) -> (m: Move)
        ensures
            m@.from == from as int,
            m@.to == to as int,
            m@.captures == as_ints(captures@),
            m@.path == seq![from as int, to as int],
    {
        let path: Vec<usize> = vec![from, to];
        proof {
            assert(as_ints(path@) =~= seq![from as int, to as int]);
        }
        Move { from, to, captures, path }
    }

    /// A move with an explicit multi-jump path.
    pub fn with_path(from: usize, to: usize, captures: Vec<usize>, path: Vec<usize>) -> (m: Move)
        ensures
            m@.from == from as int,
            m@.to == to as int,
            m@.captures == as_ints(captures@),
            m@.path == as_ints(path@),
    {
        Move { from, to, captures, path }
    }

    /// Copy of this move with identical contents.
    pub fn duplicate(&self) -> (m: Move)
        ensures
            m@ == self@,
    {
        let m = Move {
            from: self.from,
            to: self.to,
            captures: copy_indices(&self.captures),
            path: copy_indices(&self.path),
        };
        proof {
            assert(m@ =~= self@);
        }
        m
    }
}

fn copy_indices(v: &Vec<usize>) -> (r: Vec<usize>)
    ensures
        r@ == v@,
{
    let mut r: Vec<usize> = Vec::new();
    let mut i: usize = 0;
    while i < v.len()
        invariant
            i <= v@.len(),
            r@.len() == i,
            forall|j: int| 0 <= j < i ==> r@[j] == v@[j],
        decreases v@.len() - i,
    {
        r.push(v[i]);
        i = i + 1;
    }
    proof {
        assert(r@ =~= v@);
    }
    r
}

// ------------------------------------------------------------------
// Movement geometry: the four diagonal directions, in the fixed
// traversal order up-left, up-right, down-left, down-right.
// ------------------------------------------------------------------

pub open spec fn dir_dr(d: int) -> int {
    if d == 0 || d == 1 {
        -1
    } else {
        1
    }
}

pub open spec fn dir_dc(d: int) -> int {
    if d == 0 || d == 2 {
        -1
    } else {
        1
    }
}

/// May a piece of this kind move along row direction `dr`? Men only move
/// toward the opponent's back rank; kings move in all four directions.
pub open spec fn dir_allowed(piece: Square, dr: int) -> bool {
    match piece {
        Square::Empty => false,
        Square::King(_) => true,
        Square::Man(c) => match c {
            Color::Red => dr == -1,
            Color::Black => dr == 1,
        },
    }
}

/// The square one diagonal step from `f` in direction `d`.
pub open spec fn mid_of(f: int, d: int) -> int {
    idx_of(row_of(f) + dir_dr(d), col_of(f) + dir_dc(d))
}

/// The square two diagonal steps from `f` in direction `d`.
pub open spec fn land_of(f: int, d: int) -> int {
    idx_of(row_of(f) + 2 * dir_dr(d), col_of(f) + 2 * dir_dc(d))
}

pub open spec fn step_on_board(f: int, d: int) -> bool {
    on_board(row_of(f) + dir_dr(d), col_of(f) + dir_dc(d))
}

pub open spec fn jump_on_board(f: int, d: int) -> bool {
    on_board(row_of(f) + 2 * dir_dr(d), col_of(f) + 2 * dir_dc(d))
}

/// Diagonal neighbours of a playable square are themselves playable, and
/// the index arithmetic for them lands back in 0..32.
pub proof fn lemma_diag(f: int, d: int)
    requires
        0 <= f < 32,
        0 <= d < 4,
    ensures
        (row_of(f) + dir_dr(d) + (col_of(f) + dir_dc(d))) % 2 == 1,
        (row_of(f) + 2 * dir_dr(d) + (col_of(f) + 2 * dir_dc(d))) % 2 == 1,
        step_on_board(f, d) ==> playable(row_of(f) + dir_dr(d), col_of(f) + dir_dc(d)) && 0
            <= mid_of(f, d) < 32 && row_of(mid_of(f, d)) == row_of(f) + dir_dr(d) && col_of(
            mid_of(f, d),
        ) == col_of(f) + dir_dc(d),
        jump_on_board(f, d) ==> playable(row_of(f) + 2 * dir_dr(d), col_of(f) + 2 * dir_dc(d)) && 0
            <= land_of(f, d) < 32 && row_of(land_of(f, d)) == row_of(f) + 2 * dir_dr(d) && col_of(
            land_of(f, d),
        ) == col_of(f) + 2 * dir_dc(d),
        jump_on_board(f, d) ==> step_on_board(f, d),
{
    lemma_coords_roundtrip(f, 0, 0);
    let r = row_of(f);
    let c = col_of(f);
    assert((r + c) % 2 == 1);
    assert((r + dir_dr(d) + (c + dir_dc(d))) % 2 == 1);
    assert((r + 2 * dir_dr(d) + (c + 2 * dir_dc(d))) % 2 == 1);
    if step_on_board(f, d) {
        lemma_coords_roundtrip(0, r + dir_dr(d), c + dir_dc(d));
    }
    if jump_on_board(f, d) {
        lemma_coords_roundtrip(0, r + 2 * dir_dr(d), c + 2 * dir_dc(d));
    }
}

// ------------------------------------------------------------------
// Move predicates over the unmodified board. A whole capture chain is
// judged against the position before the move: the moving piece still
// stands on its origin and captured pieces still sit on their squares.
// ------------------------------------------------------------------

pub open spec fn is_opponent(sq: Square, c: Color) -> bool {
    owns(sq, c.spec_toggle())
}

pub open spec fn own_piece_at(b: BoardV, i: int) -> bool {
    0 <= i < 32 && owns(b.squares[i], b.turn)
}

/// A single jump of `piece` from `f` in direction `d` is available: the
/// adjacent square holds an opponent piece and the square beyond is
/// on-board and empty, in a direction the piece may take.
pub open spec fn jump_ok(b: BoardV, piece: Square, f: int, d: int) -> bool {
    &&& 0 <= d < 4
    &&& dir_allowed(piece, dir_dr(d))
    &&& jump_on_board(f, d)
    &&& is_opponent(b.squares[mid_of(f, d)], b.turn)
    &&& b.squares[land_of(f, d)] == Square::Empty
}

/// A one-square advance of `piece` from `f` in direction `d` is available.
pub open spec fn step_ok(b: BoardV, piece: Square, f: int, d: int) -> bool {
    &&& 0 <= d < 4
    &&& dir_allowed(piece, dir_dr(d))
    &&& step_on_board(f, d)
    &&& b.squares[mid_of(f, d)] == Square::Empty
}

pub open spec fn has_jump_from(b: BoardV, i: int) -> bool {
    own_piece_at(b, i) && exists|d: int| jump_ok(b, b.squares[i], i, d)
}

/// Some capturing move exists somewhere on the board for the side to move.
pub open spec fn has_capture(b: BoardV) -> bool {
    exists|i: int| has_jump_from(b, i)
}

pub open spec fn has_step_from(b: BoardV, i: int) -> bool {
    own_piece_at(b, i) && exists|d: int| step_ok(b, b.squares[i], i, d)
}

/// Some simple advance exists somewhere on the board for the side to move.
pub open spec fn has_simple(b: BoardV) -> bool {
    exists|i: int| has_step_from(b, i)
}

/// One hop of `piece` from `f` in direction `d`, landing on `t` and
/// capturing the piece on square `c0`.
pub open spec fn hop_match(b: BoardV, piece: Square, f: int, t: int, c0: int, d: int) -> bool {
    &&& jump_ok(b, piece, f, d)
    &&& t == land_of(f, d)
    &&& c0 == mid_of(f, d)
}

/// Segment `k` of a chain, taken in direction `d`: `path[k+1]` lies two
/// diagonal steps from `path[k]`, `captures[k]` is the hopped square, it
/// holds an opponent piece not captured earlier in the chain, and the
/// landing square is empty on the unmodified board.
pub open spec fn seg_dir_ok(b: BoardV, path: Seq<int>, caps: Seq<int>, k: int, d: int) -> bool {
    &&& 0 <= k < caps.len()
    &&& k + 1 < path.len()
    &&& hop_match(b, b.squares[path[0]], path[k], path[k + 1], caps[k], d)
    &&& forall|j: int| 0 <= j < k ==> caps[j] != caps[k]
}

pub open spec fn seg_ok(b: BoardV, path: Seq<int>, caps: Seq<int>, k: int) -> bool {
    exists|d: int| seg_dir_ok(b, path, caps, k, d)
}

/// `path`/`caps` form a valid (possibly unfinished) capture chain of the
/// side to move: one capture per hop, every hop legal, and no square of the
/// path landed on twice.
pub open spec fn chain_prefix_ok(b: BoardV, path: Seq<int>, caps: Seq<int>) -> bool {
    &&& path.len() >= 1
    &&& caps.len() == path.len() - 1
    &&& own_piece_at(b, path[0])
    &&& forall|k: int| 0 <= k < path.len() ==> 0 <= #[trigger] path[k] < 32
    &&& forall|k: int| 0 <= k < caps.len() ==> 0 <= #[trigger] caps[k] < 32
    &&& forall|k: int| 0 <= k < caps.len() ==> seg_ok(b, path, caps, k)
    &&& forall|j: int, k: int| 0 <= j < k < path.len() ==> path[j] != path[k]
}

/// A complete capture chain presented as a move.
pub open spec fn chain_move_ok(b: BoardV, m: MoveSpec) -> bool {
    &&& chain_prefix_ok(b, m.path, m.captures)
    &&& m.path.len() >= 2
    &&& m.from == m.path[0]
    &&& m.to == m.path.last()
}

/// A further jump in direction `d` is available at the end of the chain:
/// the hopped piece was not captured earlier in this chain, and the landing
/// square was not landed on earlier in this chain.
pub open spec fn cont_ok(b: BoardV, piece: Square, path: Seq<int>, caps: Seq<int>, d: int) -> bool {
    &&& path.len() >= 1
    &&& jump_ok(b, piece, path.last(), d)
    &&& !caps.contains(mid_of(path.last(), d))
    &&& !path.contains(land_of(path.last(), d))
}

pub open spec fn has_cont(b: BoardV, piece: Square, path: Seq<int>, caps: Seq<int>) -> bool {
    exists|d: int| cont_ok(b, piece, path, caps, d)
}

/// No further jump remains at the end of the chain; standard rules force a
/// player to continue jumping until none remains, so only such chains are
/// generated.
pub open spec fn chain_maximal(b: BoardV, m: MoveSpec) -> bool {
    !has_cont(b, b.squares[m.path[0]], m.path, m.captures)
}

pub open spec fn simple_dir_ok(b: BoardV, f: int, t: int, d: int) -> bool {
    step_ok(b, b.squares[f], f, d) && t == mid_of(f, d)
}

/// A simple advance: a one-square diagonal move of an own piece to an empty
/// square, in a permitted direction.
pub open spec fn simple_move_ok(b: BoardV, m: MoveSpec) -> bool {
    &&& m.captures.len() == 0
    &&& m.path == seq![m.from, m.to]
    &&& own_piece_at(b, m.from)
    &&& exists|d: int| simple_dir_ok(b, m.from, m.to, d)
}

/// Legality of a candidate move: a capture chain must be well-formed in
/// every segment; a simple advance is illegal whenever any capture is
/// available to the side to move (mandatory-capture law).
pub open spec fn spec_is_legal(b: BoardV, m: MoveSpec) -> bool {
    if m.captures.len() > 0 {
        chain_move_ok(b, m)
    } else {
        simple_move_ok(b, m) && !has_capture(b)
    }
}

// ------------------------------------------------------------------
// Executable helpers shared by the legality check and the generator.
// ------------------------------------------------------------------

/// Does `sq` hold a piece of side `c`?
pub(crate) fn owns_piece(sq: Square, c: Color) -> (r: bool)
    ensures
        r == owns(sq, c),
{
    match sq {
        Square::Empty => false,
        Square::Man(o) => o == c,
        Square::King(o) => o == c,
    }
}

/// Does `sq` hold a piece of the side opposing `c`?
pub(crate) fn opponent_piece(sq: Square, c: Color) -> (r: bool)
    ensures
        r == is_opponent(sq, c),
{
    owns_piece(sq, c.toggle())
}

pub(crate) fn dir_allowed_exec(piece: Square, dr: i32) -> (r: bool)
    ensures
        r == dir_allowed(piece, dr as int),
{
    match piece {
        Square::Empty => false,
        Square::King(_) => true,
        Square::Man(c) => match c {
            Color::Red => dr == -1,
            Color::Black => dr == 1,
        },
    }
}

/// Row and column offsets of diagonal direction `d`.
pub(crate) fn dir_delta(d: usize) -> (r: (i32, i32))
    requires
        d < 4,
    ensures
        r.0 as int == dir_dr(d as int),
        r.1 as int == dir_dc(d as int),
{
    match d {
        0 => (-1, -1),
        1 => (-1, 1),
        2 => (1, -1),
        _ => (1, 1),
    }
}

/// Mid and landing squares of a jump from `f` in direction `d`, if the
/// landing square is on the board.
pub(crate) fn jump_squares(board: &Board, f: usize, d: usize) -> (r: Option<(usize, usize)>)
    requires
        f < 32,
        d < 4,
    ensures
        match r {
            Some(p) => jump_on_board(f as int, d as int) && p.0 == mid_of(f as int, d as int)
                && p.1 == land_of(f as int, d as int) && p.0 < 32 && p.1 < 32,
            None => !jump_on_board(f as int, d as int),
        },
{
    let (row, col) = board.index_to_coords(f);
    let (dr, dc) = dir_delta(d);
    proof {
        lemma_diag(f as int, d as int);
    }
    let mid = board.coords_to_index(row as i32 + dr, col as i32 + dc);
    let land = board.coords_to_index(row as i32 + 2 * dr, col as i32 + 2 * dc);
    match (mid, land) {
        (Some(m), Some(l)) => Some((m, l)),
        _ => None,
    }
}

/// Target square of a one-square advance from `f` in direction `d`, if on
/// the board.
pub(crate) fn step_square(board: &Board, f: usize, d: usize) -> (r: Option<usize>)
    requires
        f < 32,
        d < 4,
    ensures
        r is Some ==> step_on_board(f as int, d as int) && r->0 == mid_of(f as int, d as int)
            && r->0 < 32,
        r is None ==> !step_on_board(f as int, d as int),
{
    let (row, col) = board.index_to_coords(f);
    let (dr, dc) = dir_delta(d);
    proof {
        lemma_diag(f as int, d as int);
    }
    board.coords_to_index(row as i32 + dr, col as i32 + dc)
}

/// Is `x` among the indices of `v`?
pub(crate) fn contains_idx(v: &Vec<usize>, x: usize) -> (r: bool)
    ensures
        r == as_ints(v@).contains(x as int),
{
    let mut j: usize = 0;
    while j < v.len()
        invariant
            j <= v@.len(),
            forall|i: int| 0 <= i < j ==> v@[i] != x,
        decreases v@.len() - j,
    {
        if v[j] == x {
            proof {
                assert(as_ints(v@)[j as int] == x as int);
            }
            return true;
        }
        j = j + 1;
    }
    proof {
        assert forall|i: int| 0 <= i < as_ints(v@).len() implies as_ints(v@)[i] != x as int by {
            assert(v@[i] != x);
        }
    }
    false
}

/// Are the indices of `v` pairwise distinct?
pub(crate) fn all_distinct(v: &Vec<usize>) -> (r: bool)
    ensures
        r == forall|j: int, k: int|
            0 <= j < k < as_ints(v@).len() ==> as_ints(v@)[j] != as_ints(v@)[k],
{
    let mut k: usize = 0;
    while k < v.len()
        invariant
            k <= v@.len(),
            forall|j0: int, k0: int|
                0 <= j0 < k0 < k ==> as_ints(v@)[j0] != as_ints(v@)[k0],
        decreases v@.len() - k,
    {
        let mut j: usize = 0;
        while j < k
            invariant
                j <= k,
                k < v@.len(),
                forall|j0: int| 0 <= j0 < j ==> as_ints(v@)[j0] != as_ints(v@)[k as int],
            decreases k - j,
        {
            if v[j] == v[k] {
                proof {
                    assert(as_ints(v@)[j as int] == as_ints(v@)[k as int]);
                }
                return false;
            }
            proof {
                assert(as_ints(v@)[j as int] != as_ints(v@)[k as int]);
            }
            j = j + 1;
        }
        k = k + 1;
    }
    true
}

/// Is `x` among the first `k` indices of `v`?
pub(crate) fn index_in_prefix(v: &Vec<usize>, k: usize, x: usize) -> (r: bool)
    requires
        k <= v@.len(),
    ensures
        r == exists|j: int| 0 <= j < k && as_ints(v@)[j] == x as int,
{
    let mut j: usize = 0;
    while j < k
        invariant
            j <= k,
            k <= v@.len(),
            forall|j0: int| 0 <= j0 < j ==> as_ints(v@)[j0] != x as int,
        decreases k - j,
    {
        if v[j] == x {
            proof {
                assert(as_ints(v@)[j as int] == x as int);
            }
            return true;
        }
        proof {
            assert(as_ints(v@)[j as int] != x as int);
        }
        j = j + 1;
    }
    false
}

/// Does any capturing move exist anywhere on the board for the side to
/// move?
pub(crate) fn any_capture(board: &Board) -> (r: bool)
    requires
        board@.squares.len() == 32,
    ensures
        r == has_capture(board@),
{
    let mut i: usize = 0;
    while i < 32
        invariant
            i <= 32,
            board@.squares.len() == 32,
            forall|i0: int| 0 <= i0 < i ==> !has_jump_from(board@, i0),
        decreases 32 - i,
    {
        let piece = board.squares[i];
        if owns_piece(piece, board.turn) {
            let mut d: usize = 0;
            while d < 4
                invariant
                    d <= 4,
                    i < 32,
                    board@.squares.len() == 32,
                    piece == board@.squares[i as int],
                    owns(piece, board@.turn),
                    forall|d0: int| 0 <= d0 < d ==> !jump_ok(board@, piece, i as int, d0),
                decreases 4 - d,
            {
                if let Some((mid, land)) = jump_squares(board, i, d) {
                    if opponent_piece(board.squares[mid], board.turn) && board.squares[land]
                        == Square::Empty && dir_allowed_exec(piece, dir_delta(d).0) {
                        proof {
                            assert(jump_ok(board@, piece, i as int, d as int));
                            assert(has_jump_from(board@, i as int));
                        }
                        return true;
                    }
                }
                d = d + 1;
            }
            proof {
                assert forall|d0: int| !jump_ok(board@, piece, i as int, d0) by {
                    if 0 <= d0 < 4 {
                        assert(!jump_ok(board@, piece, i as int, d0));
                    }
                }
                assert(!has_jump_from(board@, i as int));
            }
        } else {
            proof {
                assert(!own_piece_at(board@, i as int));
                assert(!has_jump_from(board@, i as int));
            }
        }
        i = i + 1;
    }
    proof {
        assert forall|i0: int| !has_jump_from(board@, i0) by {
            if 0 <= i0 < 32 {
                assert(!has_jump_from(board@, i0));
            } else {
                assert(!own_piece_at(board@, i0));
            }
        }
    }
    false
}

/// Does any simple advance exist anywhere on the board for the side to
/// move?
pub(crate) fn any_step(board: &Board) -> (r: bool)
    requires
        board@.squares.len() == 32,
    ensures
        r == has_simple(board@),
{
    let mut i: usize = 0;
    while i < 32
        invariant
            i <= 32,
            board@.squares.len() == 32,
            forall|i0: int| 0 <= i0 < i ==> !has_step_from(board@, i0),
        decreases 32 - i,
    {
        let piece = board.squares[i];
        if owns_piece(piece, board.turn) {
            let mut d: usize = 0;
            while d < 4
                invariant
                    d <= 4,
                    i < 32,
                    board@.squares.len() == 32,
                    piece == board@.squares[i as int],
                    owns(piece, board@.turn),
                    forall|d0: int| 0 <= d0 < d ==> !step_ok(board@, piece, i as int, d0),
                decreases 4 - d,
            {
                if let Some(t) = step_square(board, i, d) {
                    if board.squares[t] == Square::Empty && dir_allowed_exec(
                        piece,
                        dir_delta(d).0,
                    ) {
                        proof {
                            assert(step_ok(board@, piece, i as int, d as int));
                            assert(has_step_from(board@, i as int));
                        }
                        return true;
                    }
                }
                d = d + 1;
            }
            proof {
                assert forall|d0: int| !step_ok(board@, piece, i as int, d0) by {
                    if 0 <= d0 < 4 {
                        assert(!step_ok(board@, piece, i as int, d0));
                    }
                }
                assert(!has_step_from(board@, i as int));
            }
        } else {
            proof {
                assert(!own_piece_at(board@, i as int));
                assert(!has_step_from(board@, i as int));
            }
        }
        i = i + 1;
    }
    proof {
        assert forall|i0: int| !has_step_from(board@, i0) by {
            if 0 <= i0 < 32 {
                assert(!has_step_from(board@, i0));
            } else {
                assert(!own_piece_at(board@, i0));
            }
        }
    }
    false
}

// ------------------------------------------------------------------
// Promotion and the public legality check.
// ------------------------------------------------------------------

/// The back rank on which a man of side `c` is crowned.
pub open spec fn promo_row(c: Color) -> int {
    match c {
        Color::Red => 0,
        Color::Black => 7,
    }
}

pub open spec fn spec_promote(b: BoardV, i: int) -> bool {
    match b.squares[i] {
        Square::Man(c) => row_of(i) == promo_row(c),
        _ => false,
    }
}

/// Should the piece on `index` be crowned: a man standing on the opponent's
/// back rank.
pub fn promote(board: &Board, index: usize) -> (r: bool)
    requires
        board@.squares.len() == 32,
        index < 32,
    ensures
        r == spec_promote(board@, index as int),
{
    let (row, _col) = board.index_to_coords(index);
    match board.squares[index] {
        Square::Man(Color::Red) => row == 0,
        Square::Man(Color::Black) => row == 7,
        _ => false,
    }
}

/// Scan the four directions for a hop of `piece` from `f` landing on `t`
/// and capturing square `c0`.
fn find_hop(b: &Board, piece: Square, f: usize, t: usize, c0: usize) -> (r: bool)
    requires
        b@.squares.len() == 32,
        f < 32,
    ensures
        r == exists|d: int| hop_match(b@, piece, f as int, t as int, c0 as int, d),
{
    let mut d: usize = 0;
    while d < 4
        invariant
            d <= 4,
            f < 32,
            b@.squares.len() == 32,
            forall|d0: int|
                0 <= d0 < d ==> !hop_match(b@, piece, f as int, t as int, c0 as int, d0),
        decreases 4 - d,
    {
        if let Some((mid, land)) = jump_squares(b, f, d) {
            if land == t && mid == c0 && opponent_piece(b.squares[mid], b.turn) && b.squares[land]
                == Square::Empty && dir_allowed_exec(piece, dir_delta(d).0) {
                proof {
                    assert(hop_match(b@, piece, f as int, t as int, c0 as int, d as int));
                }
                return true;
            }
        }
        d = d + 1;
    }
    proof {
        assert forall|d0: int| !hop_match(b@, piece, f as int, t as int, c0 as int, d0) by {
            if 0 <= d0 < 4 {
                assert(!hop_match(b@, piece, f as int, t as int, c0 as int, d0));
            }
        }
    }
    false
}

/// Scan the four directions for a one-square advance of the piece on `f`
/// landing on `t`.
fn find_step(b: &Board, f: usize, t: usize) -> (r: bool)
    requires
        b@.squares.len() == 32,
        f < 32,
    ensures
        r == exists|d: int| simple_dir_ok(b@, f as int, t as int, d),
{
    let piece = b.squares[f];
    let mut d: usize = 0;
    while d < 4
        invariant
            d <= 4,
            f < 32,
            b@.squares.len() == 32,
            piece == b@.squares[f as int],
            forall|d0: int| 0 <= d0 < d ==> !simple_dir_ok(b@, f as int, t as int, d0),
        decreases 4 - d,
    {
        if let Some(sq) = step_square(b, f, d) {
            if sq == t && b.squares[sq] == Square::Empty && dir_allowed_exec(
                piece,
                dir_delta(d).0,
            ) {
                proof {
                    assert(step_ok(b@, piece, f as int, d as int));
                    assert(simple_dir_ok(b@, f as int, t as int, d as int));
                }
                return true;
            }
        }
        d = d + 1;
    }
    proof {
        assert forall|d0: int| !simple_dir_ok(b@, f as int, t as int, d0) by {
            if 0 <= d0 < 4 {
                assert(!simple_dir_ok(b@, f as int, t as int, d0));
            }
        }
    }
    false
}

/// Decide legality of a candidate move according to checkers rules; the
/// result equals `spec_is_legal` on the models of the arguments.
pub fn is_valid_move(board: &Board, m: &Move) -> (r: bool)
    requires
        board@.squares.len() == 32,
    ensures
        r == spec_is_legal(board@, m@),
{
    let b = board;
    // Shape checks shared by both kinds of move.
    if m.path.len() < 2 {
        return false;
    }
    if m.path[0] != m.from {
        return false;
    }
    if m.path[m.path.len() - 1] != m.to {
        return false;
    }
    if m.from >= 32 {
        return false;
    }
    let piece = b.squares[m.from];
    if !owns_piece(piece, b.turn) {
        return false;
    }
    if m.captures.len() > 0 {
        // Capture chain: one capture per hop, every hop a legal jump,
        // pairwise-distinct captures and landing squares.
        if m.captures.len() != m.path.len() - 1 {
            return false;
        }
        if !all_distinct(&m.path) {
            return false;
        }
        let mut k: usize = 0;
        while k < m.captures.len()
            invariant
                k <= m@.captures.len(),
                b == board,
                b@.squares.len() == 32,
                m@.captures.len() == m@.path.len() - 1,
                m@.path.len() >= 2,
                m@.path[0] == m@.from,
                0 <= m@.from < 32,
                piece == b@.squares[m@.from],
                forall|k0: int| 0 <= k0 < k ==> seg_ok(b@, m@.path, m@.captures, k0),
                forall|k0: int| 0 <= k0 < k ==> 0 <= #[trigger] m@.path[k0 + 1] < 32,
                forall|k0: int| 0 <= k0 < k ==> 0 <= #[trigger] m@.captures[k0] < 32,
            decreases m@.captures.len() - k,
        {
            // The waypoint this segment starts from is on the board: it is
            // either the origin or the landing square of the previous hop.
            proof {
                if k == 0 {
                    assert(0 <= m@.path[0] < 32);
                } else {
                    assert(0 <= m@.path[(k - 1) + 1] < 32);
                }
            }
            let fk = m.path[k];
            let tk = m.path[k + 1];
            let ck = m.captures[k];
            if index_in_prefix(&m.captures, k, ck) {
                // A piece captured earlier in this chain cannot be captured
                // again.
                proof {
                    let j = choose|j: int| 0 <= j < k && as_ints(m.captures@)[j] == ck as int;
                    assert(!seg_ok(b@, m@.path, m@.captures, k as int)) by {
                        assert forall|d0: int| !seg_dir_ok(
                            b@,
                            m@.path,
                            m@.captures,
                            k as int,
                            d0,
                        ) by {
                            if seg_dir_ok(b@, m@.path, m@.captures, k as int, d0) {
                                assert(m@.captures[j] != m@.captures[k as int]);
                            }
                        }
                    }
                }
                return false;
            }
            if !find_hop(b, piece, fk, tk, ck) {
                proof {
                    assert(!seg_ok(b@, m@.path, m@.captures, k as int)) by {
                        assert forall|d0: int| !seg_dir_ok(
                            b@,
                            m@.path,
                            m@.captures,
                            k as int,
                            d0,
                        ) by {
                            if seg_dir_ok(b@, m@.path, m@.captures, k as int, d0) {
                                assert(hop_match(
                                    b@,
                                    piece,
                                    fk as int,
                                    tk as int,
                                    ck as int,
                                    d0,
                                ));
                            }
                        }
                    }
                }
                return false;
            }
            proof {
                let d0 = choose|d0: int| hop_match(b@, piece, fk as int, tk as int, ck as int, d0);
                assert(seg_dir_ok(b@, m@.path, m@.captures, k as int, d0));
                assert(seg_ok(b@, m@.path, m@.captures, k as int));
                lemma_diag(fk as int, d0);
                assert(0 <= m@.path[k + 1] < 32);
                assert(0 <= m@.captures[k as int] < 32);
            }
            k = k + 1;
        }
        proof {
            assert forall|k0: int| 0 <= k0 < m@.path.len() implies 0 <= #[trigger] m@.path[k0]
                < 32 by {
                if k0 > 0 {
                    assert(0 <= m@.path[(k0 - 1) + 1] < 32);
                }
            }
            assert(chain_move_ok(b@, m@));
        }
        true
    } else {
        // Simple advance: a single one-square diagonal hop, legal only when
        // no capture exists anywhere for the side to move.
        if m.path.len() != 2 {
            return false;
        }
        proof {
            assert(m@.path =~= seq![m@.from, m@.to]);
        }
        if !find_step(b, m.from, m.to) {
            return false;
        }
        let r = !any_capture(b);
        proof {
            assert(simple_move_ok(b@, m@));
        }
        r
    }
}

} // verus!
