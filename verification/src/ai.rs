//! Parallel fan-out search: one task per root move, each running the
//! sequential alpha-beta search over the full window for the remaining
//! depth. Fanning out forfeits pruning across root siblings in exchange
//! for wall-clock parallelism; aggregation is a deterministic max/min in
//! generation order (first move among ties wins), so the chosen move does
//! not depend on task scheduling.

use vstd::prelude::*;

use rayon::iter::IntoParallelRefIterator;
use rayon::iter::ParallelIterator;

use crate::ab_ai::BOUND;
use crate::ab_ai::ab_ai;
use crate::ab_ai::minimax_ab;
use crate::ab_ai::spec_ab;
use crate::ab_ai::spec_choose_seq;
use crate::board::Board;
use crate::board::BoardV;
use crate::board::Color;
use crate::gen::lemma_gen_legal;
use crate::gen::moves_views;
use crate::gen::spec_gen;
use crate::mv::Move;
use crate::mv::MoveSpec;
use crate::mv::spec_is_legal;
use crate::rules::spec_apply;

verus! {

/// Full-window sequential value of the position reached by playing `m`.
pub open spec fn spec_child_score(b: BoardV, m: MoveSpec, depth: nat) -> int {
    spec_ab(spec_apply(b, m), depth, -(BOUND as int), BOUND as int).0
}

/// Index of the chosen root move after examining moves `i..`: a strict
/// improvement in the side-to-move's direction replaces the incumbent, so
/// the first move in generation order wins all ties.
pub open spec fn spec_par_pick(
    b: BoardV,
    g: Seq<MoveSpec>,
    i: int,
    depth: nat,
    best: int,
    bi: int,
) -> int
    decreases g.len() - i,
{
    if i < 0 || i >= g.len() {
        bi
    } else {
        let v = spec_child_score(b, g[i], depth);
        let better = if b.turn == Color::Red {
            v > best
        } else {
            v < best
        };
        if better {
            spec_par_pick(b, g, i + 1, depth, v, i)
        } else {
            spec_par_pick(b, g, i + 1, depth, best, bi)
        }
    }
}

pub proof fn lemma_par_pick_in_range(
    b: BoardV,
    g: Seq<MoveSpec>,
    i: int,
    depth: nat,
    best: int,
    bi: int,
)
    requires
        0 <= bi < g.len(),
        0 <= i,
    ensures
        0 <= spec_par_pick(b, g, i, depth, best, bi) < g.len(),
    decreases g.len() - i,
{
    if 0 <= i < g.len() {
        let v = spec_child_score(b, g[i], depth);
        let better = if b.turn == Color::Red {
            v > best
        } else {
            v < best
        };
        if better {
            lemma_par_pick_in_range(b, g, i + 1, depth, v, i);
        } else {
            lemma_par_pick_in_range(b, g, i + 1, depth, best, bi);
        }
    }
}

/// The move the parallel fan-out picks: with no budget, the first legal
/// move; otherwise the generation-order argmax (argmin for Black) of the
/// children's full-window sequential values.
pub open spec fn spec_choose_par(b: BoardV, depth: nat) -> Option<MoveSpec> {
    let g = spec_gen(b);
    if g.len() == 0 {
        None
    } else if depth == 0 {
        Some(g[0])
    } else {
        let d2 = (depth - 1) as nat;
        Some(g[spec_par_pick(b, g, 1, d2, spec_child_score(b, g[0], d2), 0)])
    }
}

/// The externally chosen move: the parallel fan-out's or the sequential
/// search's, by the caller's flag.
pub open spec fn spec_choose(b: BoardV, depth: nat, use_parallel: bool) -> Option<MoveSpec> {
    if use_parallel {
        spec_choose_par(b, depth)
    } else {
        spec_choose_seq(b, depth)
    }
}

/// Value of one root move: apply it to a private copy of the position and
/// run the sequential full-window search for the remaining depth.
fn search_child(board: &Board, m: &Move, depth: u32) -> (v: i64)
    requires
        board.wf(),
        spec_is_legal(board@, m@),
    ensures
        v as int == spec_child_score(board@, m@, depth as nat),
{
    let mut child = board.duplicate();
    let res = child.make_move(m);
    proof {
        assert(res is Ok);
    }
    let (v, _best) = minimax_ab(&child, depth, -BOUND, BOUND);
    v
}

/// Relies on rayon's parallel iterators (`IntoParallelRefIterator` on a
/// slice, `ParallelIterator::map` and `collect`): mapping the moves in
/// parallel and collecting into a `Vec` yields the per-move results in
/// input order; each score itself is computed by the verified
/// `search_child`.
#[verifier::external_body]
fn par_scores(board: &Board, moves: &Vec<Move>, depth: u32) -> (r: Vec<i64>)
    requires
        board.wf(),
        forall|k: int| 0 <= k < moves@.len() ==> spec_is_legal(board@, #[trigger] moves@[k]@),
    ensures
        r@.len() == moves@.len(),
        forall|k: int|
            0 <= k < r@.len() ==> #[trigger] r@[k] as int == spec_child_score(
                board@,
                moves@[k]@,
                depth as nat,
            ),
{
    moves.par_iter().map(|m| search_child(board, m, depth)).collect()
}

/// Pick a move by fanning one parallel task out per root move, each
/// running the sequential full-window search one ply down; aggregate with
/// a deterministic first-wins max/min in generation order. `None` exactly
/// when no legal move exists.
pub fn parallel_loss_function(board: &Board, depth: u32) -> (r: Option<Move>)
    requires
        board.wf(),
    ensures
        match (r, spec_choose_par(board@, depth as nat)) {
            (Some(m), Some(ms)) => m@ == ms,
            (None, None) => true,
            _ => false,
        },
        r is Some <==> spec_gen(board@).len() > 0,
        r matches Some(m) ==> spec_gen(board@).contains(m@),
{
    let ghost b = board@;
    let moves = board.get_valid_moves();
    let ghost g = spec_gen(b);
    if moves.len() == 0 {
        return None;
    }
    if depth == 0 {
        proof {
            assert(g[0] == moves@[0]@);
        }
        return Some(moves[0].duplicate());
    }
    proof {
        lemma_gen_legal(b);
        assert forall|k: int| 0 <= k < moves@.len() implies spec_is_legal(
            b,
            #[trigger] moves@[k]@,
        ) by {
            assert(moves@[k]@ == g[k]);
        }
    }
    let scores = par_scores(board, &moves, depth - 1);
    let ghost d2 = (depth - 1) as nat;
    let mut best: i64 = scores[0];
    let mut bi: usize = 0;
    let mut i: usize = 1;
    proof {
        assert(moves@[0]@ == g[0]);
    }
    while i < moves.len()
        invariant
            1 <= i <= moves@.len(),
            bi < i,
            b == board@,
            g == spec_gen(b),
            moves_views(moves@) == g,
            g.len() == moves@.len(),
            scores@.len() == moves@.len(),
            forall|k: int|
                0 <= k < scores@.len() ==> #[trigger] scores@[k] as int == spec_child_score(
                    b,
                    moves@[k]@,
                    d2,
                ),
            best as int == spec_child_score(b, g[bi as int], d2),
            spec_par_pick(b, g, i as int, d2, best as int, bi as int) == spec_par_pick(
                b,
                g,
                1,
                d2,
                spec_child_score(b, g[0], d2),
                0,
            ),
        decreases moves@.len() - i,
    {
        proof {
            assert(moves@[i as int]@ == g[i as int]);
        }
        let v = scores[i];
        let better = match board.turn {
            Color::Red => v > best,
            Color::Black => v < best,
        };
        if better {
            best = v;
            bi = i;
        }
        i = i + 1;
    }
    proof {
        lemma_par_pick_in_range(b, g, 1, d2, spec_child_score(b, g[0], d2), 0);
        assert(moves@[bi as int]@ == g[bi as int]);
        assert(spec_gen(b).contains(g[bi as int]));
    }
    Some(moves[bi].duplicate())
}

/// Pick a move for the side to move at the given depth budget, by the
/// parallel fan-out or the sequential alpha-beta search. Returns a move
/// exactly when the position has at least one legal move.
pub fn choose_best_move(board: &Board, depth: u32, use_parallel: bool) -> (r: Option<Move>)
    requires
        board.wf(),
    ensures
        match (r, spec_choose(board@, depth as nat, use_parallel)) {
            (Some(m), Some(ms)) => m@ == ms,
            (None, None) => true,
            _ => false,
        },
        r is Some <==> spec_gen(board@).len() > 0,
        r matches Some(m) ==> spec_gen(board@).contains(m@),
{
    if use_parallel {
        parallel_loss_function(board, depth)
    } else {
        ab_ai(board, depth)
    }
}

} // verus!
