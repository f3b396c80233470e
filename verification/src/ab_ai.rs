//! Static evaluation and the sequential minimax search with alpha-beta
//! pruning. Scores are integers: positive favors Red, the fixed maximizing
//! side. Decisive outcomes use the sentinels +/-`WIN`, far above any
//! heuristic magnitude, so a forced win is always distinguishable from a
//! good position. A forced single-reply position is evaluated directly
//! rather than recursed, deliberately spending no search budget on it.

use vstd::prelude::*;

use crate::board::Board;
use crate::board::BoardV;
use crate::board::Color;
use crate::board::Square;
use crate::board::col_of;
use crate::board::row_of;
use crate::gen::lemma_gen_legal;
use crate::gen::moves_views;
use crate::gen::spec_gen;
use crate::mv::Move;
use crate::mv::MoveSpec;
use crate::mv::spec_is_legal;
use crate::rules::spec_apply;
use crate::rules::spec_terminal;
use crate::rules::spec_winner;

verus! {

/// Sentinel score of a decided game; heuristic scores stay far below it.
pub const WIN: i64 = 1_000_000;

/// Initial half-open search window, strictly wider than any score.
pub const BOUND: i64 = 2_000_000;

pub open spec fn int_abs(x: int) -> int {
    if x < 0 {
        -x
    } else {
        x
    }
}

/// Heuristic worth of the piece on a square at (row `r`, column `c`):
/// material (a king roughly 2.5 men), men advancing toward promotion,
/// kings holding the central rows, and a small penalty on the edge
/// columns; black contributions mirror red ones negatively.
pub open spec fn piece_score(sq: Square, r: int, c: int) -> int {
    let edge: int = if c == 0 || c == 7 {
        35
    } else {
        0
    };
    match sq {
        Square::Empty => 0,
        Square::Man(Color::Red) => 140 + (if r == 0 {
            350int
        } else {
            (7 - r) * 10
        }) - edge,
        Square::Man(Color::Black) => -140 - (if r == 7 {
            350int
        } else {
            r * 10
        }) + edge,
        Square::King(Color::Red) => 350 + (210 - 30 * int_abs(7 - 2 * r)) - edge,
        Square::King(Color::Black) => -350 - (210 - 30 * int_abs(7 - 2 * r)) + edge,
    }
}

pub open spec fn eval_upto(b: BoardV, n: int) -> int
    decreases n,
{
    if n <= 0 {
        0
    } else {
        eval_upto(b, n - 1) + piece_score(b.squares[n - 1], row_of(n - 1), col_of(n - 1))
    }
}

/// Static score of a position: the sum of the piece scores, positive
/// favoring Red. A pure function of the position alone.
pub open spec fn spec_eval(b: BoardV) -> int {
    eval_upto(b, 32)
}

pub proof fn lemma_eval_upto_bounded(b: BoardV, n: int)
    requires
        0 <= n <= 32,
    ensures
        -1000 * n <= eval_upto(b, n) <= 1000 * n,
    decreases n,
{
    if n > 0 {
        lemma_eval_upto_bounded(b, n - 1);
    }
}

/// Heuristic scores stay strictly below the win sentinels at any depth of
/// summation, so decisive outcomes are always distinguishable.
pub proof fn lemma_eval_bounded(b: BoardV)
    ensures
        -32000 <= spec_eval(b) <= 32000,
        -(WIN as int) < spec_eval(b) < WIN as int,
{
    lemma_eval_upto_bounded(b, 32);
}

/// Static evaluation of the board; the magnitude stays far below `WIN`.
pub fn bar(board: &Board) -> (r: i64)
    requires
        board@.squares.len() == 32,
    ensures
        r as int == spec_eval(board@),
        -32000 <= r <= 32000,
{
    let mut acc: i64 = 0;
    let mut i: usize = 0;
    while i < 32
        invariant
            i <= 32,
            board@.squares.len() == 32,
            acc as int == eval_upto(board@, i as int),
            -1000 * (i as int) <= acc as int <= 1000 * (i as int),
        decreases 32 - i,
    {
        let (row, col) = board.index_to_coords(i);
        let edge: i64 = if col == 0 || col == 7 {
            35
        } else {
            0
        };
        let s: i64 = match board.squares[i] {
            Square::Empty => 0,
            Square::Man(Color::Red) => {
                let bonus: i64 = if row == 0 {
                    350
                } else {
                    ((7 - row) as i64) * 10
                };
                140 + bonus - edge
            },
            Square::Man(Color::Black) => {
                let bonus: i64 = if row == 7 {
                    350
                } else {
                    (row as i64) * 10
                };
                -140 - bonus + edge
            },
            Square::King(Color::Red) => {
                let dd: i64 = 7 - 2 * (row as i64);
                let ad: i64 = if dd < 0 {
                    -dd
                } else {
                    dd
                };
                350 + (210 - 30 * ad) - edge
            },
            Square::King(Color::Black) => {
                let dd: i64 = 7 - 2 * (row as i64);
                let ad: i64 = if dd < 0 {
                    -dd
                } else {
                    dd
                };
                -350 - (210 - 30 * ad) + edge
            },
        };
        acc = acc + s;
        i = i + 1;
    }
    acc
}

// ------------------------------------------------------------------
// The search, specified as a recursive function mirrored exactly by the
// executable one. The value is the alpha-beta score; the second component
// is the index of the chosen move in generation order, if any.
// ------------------------------------------------------------------

pub open spec fn opt_idx(o: Option<usize>) -> Option<int> {
    match o {
        Some(k) => Some(k as int),
        None => None,
    }
}

/// Sentinel value of a finished game, from Red's point of view.
pub open spec fn terminal_value(b: BoardV) -> int {
    if spec_winner(b) == Some(Color::Red) {
        WIN as int
    } else {
        -(WIN as int)
    }
}

/// Alpha-beta value of a position and the index of the best move. Base
/// cases: a finished game scores its sentinel; an exhausted budget scores
/// the static evaluation; an empty move set (defensively) counts as a loss
/// for the side to move; a forced single reply is evaluated directly,
/// spending no budget.
pub open spec fn spec_ab(b: BoardV, depth: nat, alpha: int, beta: int) -> (int, Option<int>)
    decreases depth, 1int, 0int,
{
    if spec_terminal(b) {
        (terminal_value(b), None)
    } else if depth == 0 {
        (spec_eval(b), None)
    } else {
        let g = spec_gen(b);
        if g.len() == 0 {
            (
                if b.turn == Color::Red {
                    -(WIN as int)
                } else {
                    WIN as int
                },
                None,
            )
        } else if g.len() == 1 {
            (spec_eval(spec_apply(b, g[0])), Some(0))
        } else if b.turn == Color::Red {
            spec_ab_max(b, g, 0, depth, alpha, beta, -(BOUND as int), None)
        } else {
            spec_ab_min(b, g, 0, depth, alpha, beta, BOUND as int, None)
        }
    }
}

/// The maximizing loop over moves `i..`: raise the best value and `alpha`
/// on improvement, and stop as soon as the window closes.
pub open spec fn spec_ab_max(
    b: BoardV,
    g: Seq<MoveSpec>,
    i: int,
    depth: nat,
    alpha: int,
    beta: int,
    best: int,
    bidx: Option<int>,
) -> (int, Option<int>)
    decreases depth, 0int, g.len() - i,
{
    if depth == 0 || i < 0 || i >= g.len() || beta <= alpha {
        (best, bidx)
    } else {
        let v = spec_ab(spec_apply(b, g[i]), (depth - 1) as nat, alpha, beta).0;
        if v > best {
            spec_ab_max(
                b,
                g,
                i + 1,
                depth,
                if v > alpha {
                    v
                } else {
                    alpha
                },
                beta,
                v,
                Some(i),
            )
        } else {
            spec_ab_max(b, g, i + 1, depth, alpha, beta, best, bidx)
        }
    }
}

/// The minimizing loop, mirror image of the maximizing one.
pub open spec fn spec_ab_min(
    b: BoardV,
    g: Seq<MoveSpec>,
    i: int,
    depth: nat,
    alpha: int,
    beta: int,
    best: int,
    bidx: Option<int>,
) -> (int, Option<int>)
    decreases depth, 0int, g.len() - i,
{
    if depth == 0 || i < 0 || i >= g.len() || beta <= alpha {
        (best, bidx)
    } else {
        let v = spec_ab(spec_apply(b, g[i]), (depth - 1) as nat, alpha, beta).0;
        if v < best {
            spec_ab_min(
                b,
                g,
                i + 1,
                depth,
                alpha,
                if v < beta {
                    v
                } else {
                    beta
                },
                v,
                Some(i),
            )
        } else {
            spec_ab_min(b, g, i + 1, depth, alpha, beta, best, bidx)
        }
    }
}

/// Sequential minimax with alpha-beta pruning; returns exactly the value
/// and move-index choice of `spec_ab` on the model of the position.
pub fn minimax_ab(board: &Board, depth: u32, alpha: i64, beta: i64) -> (r: (i64, Option<Move>))
    requires
        board.wf(),
    ensures
        ({
            let s = spec_ab(board@, depth as nat, alpha as int, beta as int);
            &&& r.0 as int == s.0
            &&& match (r.1, s.1) {
                (Some(m), Some(k)) => 0 <= k < spec_gen(board@).len() && m@ == spec_gen(board@)[k],
                (None, None) => true,
                _ => false,
            }
        }),
    decreases depth,
{
    let ghost b = board@;
    if board.is_game_over() {
        let value = match board.get_winner() {
            Some(Color::Red) => WIN,
            _ => -WIN,
        };
        return (value, None);
    }
    if depth == 0 {
        return (bar(board), None);
    }
    let moves = board.get_valid_moves();
    let ghost g = spec_gen(b);
    proof {
        lemma_gen_legal(b);
    }
    if moves.len() == 0 {
        let value = match board.turn {
            Color::Red => -WIN,
            Color::Black => WIN,
        };
        return (value, None);
    }
    if moves.len() == 1 {
        let mut child = board.duplicate();
        let res = child.make_move(&moves[0]);
        proof {
            assert(moves@[0]@ == g[0]);
            assert(res is Ok);
        }
        let value = bar(&child);
        return (value, Some(moves[0].duplicate()));
    }
    let n = moves.len();
    match board.turn {
        Color::Red => {
            let mut best: i64 = -BOUND;
            let mut bidx: Option<usize> = None;
            let mut a: i64 = alpha;
            let mut i: usize = 0;
            while i < n && a < beta
                invariant
                    i <= n,
                    depth >= 1,
                    board.wf(),
                    b == board@,
                    b.turn == Color::Red,
                    n == moves@.len(),
                    moves_views(moves@) == g,
                    g == spec_gen(b),
                    g.len() == n,
                    forall|k: int| 0 <= k < g.len() ==> spec_is_legal(b, #[trigger] g[k]),
                    match bidx {
                        Some(k) => k < n,
                        None => true,
                    },
                    spec_ab_max(
                        b,
                        g,
                        i as int,
                        depth as nat,
                        a as int,
                        beta as int,
                        best as int,
                        opt_idx(bidx),
                    ) == spec_ab_max(
                        b,
                        g,
                        0,
                        depth as nat,
                        alpha as int,
                        beta as int,
                        -(BOUND as int),
                        None::<int>,
                    ),
                decreases n - i,
            {
                let mut child = board.duplicate();
                let res = child.make_move(&moves[i]);
                proof {
                    assert(moves@[i as int]@ == g[i as int]);
                    assert(res is Ok);
                }
                let (v, _child_mv) = minimax_ab(&child, depth - 1, a, beta);
                proof {
                    assert(spec_ab_max(
                        b,
                        g,
                        i as int,
                        depth as nat,
                        a as int,
                        beta as int,
                        best as int,
                        opt_idx(bidx),
                    ) == (if (v as int) > (best as int) {
                        spec_ab_max(
                            b,
                            g,
                            i + 1,
                            depth as nat,
                            if (v as int) > (a as int) {
                                v as int
                            } else {
                                a as int
                            },
                            beta as int,
                            v as int,
                            Some(i as int),
                        )
                    } else {
                        spec_ab_max(
                            b,
                            g,
                            i + 1,
                            depth as nat,
                            a as int,
                            beta as int,
                            best as int,
                            opt_idx(bidx),
                        )
                    }));
                }
                if v > best {
                    best = v;
                    bidx = Some(i);
                    if v > a {
                        a = v;
                    }
                }
                i = i + 1;
            }
            let r1 = match bidx {
                Some(k) => Some(moves[k].duplicate()),
                None => None,
            };
            (best, r1)
        },
        Color::Black => {
            let mut best: i64 = BOUND;
            let mut bidx: Option<usize> = None;
            let mut bt: i64 = beta;
            let mut i: usize = 0;
            while i < n && alpha < bt
                invariant
                    i <= n,
                    depth >= 1,
                    board.wf(),
                    b == board@,
                    b.turn == Color::Black,
                    n == moves@.len(),
                    moves_views(moves@) == g,
                    g == spec_gen(b),
                    g.len() == n,
                    forall|k: int| 0 <= k < g.len() ==> spec_is_legal(b, #[trigger] g[k]),
                    match bidx {
                        Some(k) => k < n,
                        None => true,
                    },
                    spec_ab_min(
                        b,
                        g,
                        i as int,
                        depth as nat,
                        alpha as int,
                        bt as int,
                        best as int,
                        opt_idx(bidx),
                    ) == spec_ab_min(
                        b,
                        g,
                        0,
                        depth as nat,
                        alpha as int,
                        beta as int,
                        BOUND as int,
                        None::<int>,
                    ),
                decreases n - i,
            {
                let mut child = board.duplicate();
                let res = child.make_move(&moves[i]);
                proof {
                    assert(moves@[i as int]@ == g[i as int]);
                    assert(res is Ok);
                }
                let (v, _child_mv) = minimax_ab(&child, depth - 1, alpha, bt);
                proof {
                    assert(spec_ab_min(
                        b,
                        g,
                        i as int,
                        depth as nat,
                        alpha as int,
                        bt as int,
                        best as int,
                        opt_idx(bidx),
                    ) == (if (v as int) < (best as int) {
                        spec_ab_min(
                            b,
                            g,
                            i + 1,
                            depth as nat,
                            alpha as int,
                            if (v as int) < (bt as int) {
                                v as int
                            } else {
                                bt as int
                            },
                            v as int,
                            Some(i as int),
                        )
                    } else {
                        spec_ab_min(
                            b,
                            g,
                            i + 1,
                            depth as nat,
                            alpha as int,
                            bt as int,
                            best as int,
                            opt_idx(bidx),
                        )
                    }));
                }
                if v < best {
                    best = v;
                    bidx = Some(i);
                    if v < bt {
                        bt = v;
                    }
                }
                i = i + 1;
            }
            let r1 = match bidx {
                Some(k) => Some(moves[k].duplicate()),
                None => None,
            };
            (best, r1)
        },
    }
}

/// The move the sequential search picks at the root: the choice of
/// `spec_ab` over the full window, or the first legal move when the search
/// reports none (depth zero, or an immediately decided game).
pub open spec fn spec_choose_seq(b: BoardV, depth: nat) -> Option<MoveSpec> {
    let g = spec_gen(b);
    if g.len() == 0 {
        None
    } else {
        match spec_ab(b, depth, -(BOUND as int), BOUND as int).1 {
            Some(k) => Some(g[k]),
            None => Some(g[0]),
        }
    }
}

/// Pick a move for the side to move by sequential alpha-beta search over
/// the full window; `None` exactly when no legal move exists.
pub fn ab_ai(board: &Board, depth: u32) -> (r: Option<Move>)
    requires
        board.wf(),
    ensures
        match (r, spec_choose_seq(board@, depth as nat)) {
            (Some(m), Some(ms)) => m@ == ms,
            (None, None) => true,
            _ => false,
        },
        r is Some <==> spec_gen(board@).len() > 0,
        r matches Some(m) ==> spec_gen(board@).contains(m@),
{
    let moves = board.get_valid_moves();
    if moves.len() == 0 {
        return None;
    }
    let (_value, best) = minimax_ab(board, depth, -BOUND, BOUND);
    match best {
        Some(m) => {
            proof {
                let s = spec_ab(board@, depth as nat, -(BOUND as int), BOUND as int);
                let k = s.1->0;
                assert(spec_gen(board@)[k] == m@);
            }
            Some(m)
        },
        None => {
            proof {
                assert(spec_gen(board@)[0] == moves@[0]@);
            }
            Some(moves[0].duplicate())
        },
    }
}

} // verus!
