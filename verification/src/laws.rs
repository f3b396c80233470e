//! Laws of the engine, stated and proved once over the mathematical model:
//! well-formedness of every generated move, the mandatory-capture law, no
//! move ever starting on an empty square, irreversible promotion,
//! soundness of alpha-beta pruning, and the agreement of the parallel and
//! sequential searches at every depth budget.

use vstd::prelude::*;

use crate::ab_ai::BOUND;
use crate::ab_ai::WIN;
use crate::ab_ai::lemma_eval_bounded;
use crate::ab_ai::spec_ab;
use crate::ab_ai::spec_ab_max;
use crate::ab_ai::spec_ab_min;
use crate::ab_ai::spec_choose_seq;
use crate::ai::spec_child_score;
use crate::ai::spec_choose_par;
use crate::ai::spec_par_pick;
use crate::board::BoardV;
use crate::board::Color;
use crate::board::Square;
use crate::board::owns;
use crate::board::row_of;
use crate::board::wf_board;
use crate::gen::lemma_gen_legal;
use crate::gen::spec_gen;
use crate::mv::MoveSpec;
use crate::mv::land_of;
use crate::mv::lemma_diag;
use crate::mv::mid_of;
use crate::mv::promo_row;
use crate::mv::seg_dir_ok;
use crate::mv::seg_ok;
use crate::mv::simple_dir_ok;
use crate::mv::spec_is_legal;
use crate::rules::lemma_apply_wf;
use crate::rules::lemma_clear_upto;
use crate::rules::lemma_legal_facts;
use crate::rules::spec_apply;
use crate::rules::spec_terminal;

verus! {

/// `t` lies one or two diagonal steps from `a` in one of the four
/// directions.
pub open spec fn diag_hop(a: int, t: int) -> bool {
    exists|d: int| 0 <= d < 4 && (t == mid_of(a, d) || t == land_of(a, d))
}

/// Every legal move is well-formed: its path squares are pairwise
/// distinct, within the 32 playable squares, and diagonally connected at
/// each hop. Generated moves are legal, so this holds of every move the
/// generator proposes, on any position.
pub proof fn lemma_legal_move_wellformed(b: BoardV, m: MoveSpec)
    requires
        b.squares.len() == 32,
        spec_is_legal(b, m),
    ensures
        m.path.len() >= 2,
        forall|j: int| 0 <= j < m.path.len() ==> 0 <= #[trigger] m.path[j] < 32,
        forall|j1: int, j2: int| 0 <= j1 < j2 < m.path.len() ==> m.path[j1] != m.path[j2],
        forall|j: int| 0 <= j < m.path.len() - 1 ==> diag_hop(m.path[j], #[trigger] m.path[j + 1]),
{
    lemma_legal_facts(b, m);
    if m.captures.len() > 0 {
        assert forall|j: int| 0 <= j < m.path.len() - 1 implies diag_hop(
            m.path[j],
            #[trigger] m.path[j + 1],
        ) by {
            assert(seg_ok(b, m.path, m.captures, j));
            let d = choose|d: int| seg_dir_ok(b, m.path, m.captures, j, d);
            assert(m.path[j + 1] == land_of(m.path[j], d));
        }
    } else {
        let d = choose|d: int| simple_dir_ok(b, m.from, m.to, d);
        lemma_diag(m.from, d);
        assert(m.path =~= seq![m.from, m.to]);
        assert(m.path[0int + 1] == mid_of(m.path[0int], d));
        assert(diag_hop(m.path[0int], m.path[0int + 1]));
    }
}

/// The mandatory-capture law over the whole move set: when any capture
/// exists for the side to move, every generated move is a capture — no
/// simple advance is ever mixed in — and when none exists, every
/// generated move is a simple advance.
pub proof fn lemma_mandatory_capture(b: BoardV)
    requires
        b.squares.len() == 32,
    ensures
        crate::mv::has_capture(b) ==> forall|k: int|
            0 <= k < spec_gen(b).len() ==> (#[trigger] spec_gen(b)[k]).captures.len() >= 1,
        !crate::mv::has_capture(b) ==> forall|k: int|
            0 <= k < spec_gen(b).len() ==> (#[trigger] spec_gen(b)[k]).captures.len() == 0,
{
    lemma_gen_legal(b);
}

/// After a legal move is applied, no generated move on the resulting
/// position starts on an empty square: every proposed origin holds a
/// piece of the new side to move.
pub proof fn lemma_no_move_from_empty(b: BoardV, m0: MoveSpec, k: int)
    requires
        wf_board(b),
        spec_is_legal(b, m0),
        0 <= k < spec_gen(spec_apply(b, m0)).len(),
    ensures
        ({
            let b2 = spec_apply(b, m0);
            let m = spec_gen(b2)[k];
            &&& 0 <= m.from < 32
            &&& owns(b2.squares[m.from], b2.turn)
            &&& b2.squares[m.from] != Square::Empty
        }),
{
    let b2 = spec_apply(b, m0);
    lemma_apply_wf(b, m0);
    lemma_gen_legal(b2);
    let m = spec_gen(b2)[k];
    assert(spec_is_legal(b2, m));
    if m.captures.len() > 0 {
        assert(m.from == m.path[0]);
        assert(crate::mv::own_piece_at(b2, m.path[0]));
    }
}

/// Crowning is applied exactly once and is irreversible: a king that
/// moves stays the same king, a man reaching the opponent's back rank
/// arrives as a king, and a man stopping short of it arrives as a man.
pub proof fn lemma_promotion(b: BoardV, m: MoveSpec, c: Color)
    requires
        wf_board(b),
        spec_is_legal(b, m),
    ensures
        ({
            let b2 = spec_apply(b, m);
            &&& b.squares[m.from] == Square::King(c) ==> b2.squares[m.to] == Square::King(c)
            &&& (b.squares[m.from] == Square::Man(c) && row_of(m.to) == promo_row(c))
                ==> b2.squares[m.to] == Square::King(c)
            &&& (b.squares[m.from] == Square::Man(c) && row_of(m.to) != promo_row(c))
                ==> b2.squares[m.to] == Square::Man(c)
        }),
{
    lemma_legal_facts(b, m);
    let s1 = b.squares.update(m.from, Square::Empty);
    lemma_clear_upto(s1, m.captures, m.captures.len() as int, m.to);
}

/// Squares other than the origin, the destination, and the captured
/// squares are untouched by applying a move.
pub proof fn lemma_apply_frame(b: BoardV, m: MoveSpec, j: int)
    requires
        wf_board(b),
        spec_is_legal(b, m),
        0 <= j < 32,
        j != m.from,
        j != m.to,
        !m.captures.contains(j),
    ensures
        spec_apply(b, m).squares[j] == b.squares[j],
{
    lemma_legal_facts(b, m);
    let s1 = b.squares.update(m.from, Square::Empty);
    lemma_clear_upto(s1, m.captures, m.captures.len() as int, j);
    if exists|jj: int| 0 <= jj < m.captures.len() && m.captures[jj] == j {
        let jj = choose|jj: int| 0 <= jj < m.captures.len() && m.captures[jj] == j;
        assert(m.captures.contains(j));
    }
}

// ------------------------------------------------------------------
// Soundness of alpha-beta pruning, by induction on the depth budget: a
// search over any window agrees with the full-window value whenever that
// value lies inside the window, and fails only toward the closed side of
// the window otherwise. From this, the parallel fan-out and the
// sequential search choose the same move at every depth.
// ------------------------------------------------------------------

/// The full-window search value of a position: what the search reports
/// when nothing is pruned away by an enclosing window.
pub open spec fn full_val(b: BoardV, depth: nat) -> int {
    spec_ab(b, depth, -(BOUND as int), BOUND as int).0
}

/// Largest full-window value among the children `i..` of `g`.
spec fn tb_max(b: BoardV, g: Seq<MoveSpec>, i: int, depth: nat) -> int
    decreases g.len() - i,
{
    if i < 0 || i >= g.len() {
        -(BOUND as int)
    } else {
        let m = full_val(spec_apply(b, g[i]), depth);
        let rest = tb_max(b, g, i + 1, depth);
        if m >= rest {
            m
        } else {
            rest
        }
    }
}

/// Smallest full-window value among the children `i..` of `g`.
spec fn tb_min(b: BoardV, g: Seq<MoveSpec>, i: int, depth: nat) -> int
    decreases g.len() - i,
{
    if i < 0 || i >= g.len() {
        BOUND as int
    } else {
        let m = full_val(spec_apply(b, g[i]), depth);
        let rest = tb_min(b, g, i + 1, depth);
        if m <= rest {
            m
        } else {
            rest
        }
    }
}

proof fn lemma_tb_max_bounds(b: BoardV, g: Seq<MoveSpec>, i: int, depth: nat)
    requires
        0 <= i < g.len(),
    ensures
        -(WIN as int) <= tb_max(b, g, i, depth) <= WIN as int,
    decreases depth, 3int, g.len() - i,
{
    lemma_alpha_beta_window(spec_apply(b, g[i]), depth, -(BOUND as int), BOUND as int);
    if i + 1 < g.len() {
        lemma_tb_max_bounds(b, g, i + 1, depth);
    } else {
        assert(tb_max(b, g, i + 1, depth) == -(BOUND as int));
    }
}

proof fn lemma_tb_min_bounds(b: BoardV, g: Seq<MoveSpec>, i: int, depth: nat)
    requires
        0 <= i < g.len(),
    ensures
        -(WIN as int) <= tb_min(b, g, i, depth) <= WIN as int,
    decreases depth, 3int, g.len() - i,
{
    lemma_alpha_beta_window(spec_apply(b, g[i]), depth, -(BOUND as int), BOUND as int);
    if i + 1 < g.len() {
        lemma_tb_min_bounds(b, g, i + 1, depth);
    } else {
        assert(tb_min(b, g, i + 1, depth) == BOUND as int);
    }
}

proof fn lemma_ab_max_window(
    b: BoardV,
    g: Seq<MoveSpec>,
    i: int,
    depth: nat,
    alpha: int,
    beta: int,
    best: int,
    bidx: Option<int>,
)
    requires
        depth >= 1,
        0 <= i <= g.len(),
        -(BOUND as int) <= alpha < beta <= BOUND as int,
        -(BOUND as int) <= best <= alpha,
    ensures
        ({
            let tb = tb_max(b, g, i, (depth - 1) as nat);
            let ft = if best >= tb {
                best
            } else {
                tb
            };
            let r = spec_ab_max(b, g, i, depth, alpha, beta, best, bidx).0;
            &&& r >= best
            &&& ft <= alpha ==> r <= alpha
            &&& alpha < ft < beta ==> r == ft
            &&& ft >= beta ==> r >= beta
        }),
    decreases depth, 1int, g.len() - i,
{
    let d2 = (depth - 1) as nat;
    if i < g.len() {
        let child = spec_apply(b, g[i]);
        lemma_alpha_beta_window(child, d2, alpha, beta);
        let mi = full_val(child, d2);
        let v = spec_ab(child, d2, alpha, beta).0;
        if v > best {
            let a2 = if v > alpha {
                v
            } else {
                alpha
            };
            if v >= beta {
                // `mi` cannot be below the window or inside it, so the
                // true value also fails high, and the next step prunes.
                assert(mi >= beta);
                assert(spec_ab_max(b, g, i + 1, depth, a2, beta, v, Some(i)) == (
                    v,
                    Some(i),
                ));
            } else {
                lemma_ab_max_window(b, g, i + 1, depth, a2, beta, v, Some(i));
            }
        } else {
            lemma_ab_max_window(b, g, i + 1, depth, alpha, beta, best, bidx);
            // A child at or below `alpha` cannot beat the incumbent, and
            // one inside the window would have been taken exactly.
            assert(mi <= alpha || (alpha < mi < beta && v == mi));
        }
    }
}

proof fn lemma_ab_min_window(
    b: BoardV,
    g: Seq<MoveSpec>,
    i: int,
    depth: nat,
    alpha: int,
    beta: int,
    best: int,
    bidx: Option<int>,
)
    requires
        depth >= 1,
        0 <= i <= g.len(),
        -(BOUND as int) <= alpha < beta <= BOUND as int,
        beta <= best <= BOUND as int,
    ensures
        ({
            let tb = tb_min(b, g, i, (depth - 1) as nat);
            let ft = if best <= tb {
                best
            } else {
                tb
            };
            let r = spec_ab_min(b, g, i, depth, alpha, beta, best, bidx).0;
            &&& r <= best
            &&& ft >= beta ==> r >= beta
            &&& alpha < ft < beta ==> r == ft
            &&& ft <= alpha ==> r <= alpha
        }),
    decreases depth, 1int, g.len() - i,
{
    let d2 = (depth - 1) as nat;
    if i < g.len() {
        let child = spec_apply(b, g[i]);
        lemma_alpha_beta_window(child, d2, alpha, beta);
        let mi = full_val(child, d2);
        let v = spec_ab(child, d2, alpha, beta).0;
        if v < best {
            let b2 = if v < beta {
                v
            } else {
                beta
            };
            if v <= alpha {
                assert(mi <= alpha);
                assert(spec_ab_min(b, g, i + 1, depth, alpha, b2, v, Some(i)) == (
                    v,
                    Some(i),
                ));
            } else {
                lemma_ab_min_window(b, g, i + 1, depth, alpha, b2, v, Some(i));
            }
        } else {
            lemma_ab_min_window(b, g, i + 1, depth, alpha, beta, best, bidx);
            assert(mi >= beta || (alpha < mi < beta && v == mi));
        }
    }
}

/// Soundness of alpha-beta pruning: the full-window value of any search
/// is bounded by the win sentinels, a windowed search returns exactly the
/// full-window value whenever that value lies strictly inside the window,
/// and otherwise fails only toward the side of the window the value
/// crossed — pruning never changes what a full-window caller sees.
pub proof fn lemma_alpha_beta_window(b: BoardV, depth: nat, alpha: int, beta: int)
    requires
        -(BOUND as int) <= alpha < beta <= BOUND as int,
    ensures
        -(WIN as int) <= full_val(b, depth) <= WIN as int,
        full_val(b, depth) <= alpha ==> spec_ab(b, depth, alpha, beta).0 <= alpha,
        alpha < full_val(b, depth) < beta ==> spec_ab(b, depth, alpha, beta).0 == full_val(
            b,
            depth,
        ),
        full_val(b, depth) >= beta ==> spec_ab(b, depth, alpha, beta).0 >= beta,
    decreases depth, 2int, 0int,
{
    if spec_terminal(b) {
    } else if depth == 0 {
        lemma_eval_bounded(b);
    } else {
        let g = spec_gen(b);
        let d2 = (depth - 1) as nat;
        if g.len() == 0 {
        } else if g.len() == 1 {
            lemma_eval_bounded(spec_apply(b, g[0]));
        } else if b.turn == Color::Red {
            lemma_tb_max_bounds(b, g, 0, d2);
            let tb = tb_max(b, g, 0, d2);
            lemma_ab_max_window(
                b,
                g,
                0,
                depth,
                -(BOUND as int),
                BOUND as int,
                -(BOUND as int),
                None,
            );
            assert(full_val(b, depth) == tb);
            lemma_ab_max_window(b, g, 0, depth, alpha, beta, -(BOUND as int), None);
        } else {
            lemma_tb_min_bounds(b, g, 0, d2);
            let tb = tb_min(b, g, 0, d2);
            lemma_ab_min_window(
                b,
                g,
                0,
                depth,
                -(BOUND as int),
                BOUND as int,
                BOUND as int,
                None,
            );
            assert(full_val(b, depth) == tb);
            lemma_ab_min_window(b, g, 0, depth, alpha, beta, BOUND as int, None);
        }
    }
}

proof fn lemma_root_agree_max(b: BoardV, g: Seq<MoveSpec>, i: int, depth: nat, best: int, bi: int)
    requires
        depth >= 1,
        b.turn == Color::Red,
        1 <= i <= g.len(),
        0 <= bi < i,
        best == full_val(spec_apply(b, g[bi]), (depth - 1) as nat),
        -(WIN as int) <= best <= WIN as int,
        forall|j: int|
            0 <= j < i ==> full_val(spec_apply(b, #[trigger] g[j]), (depth - 1) as nat) <= best,
    ensures
        spec_ab_max(b, g, i, depth, best, BOUND as int, best, Some(bi)).1 == Some(
            spec_par_pick(b, g, i, (depth - 1) as nat, best, bi),
        ),
    decreases g.len() - i,
{
    let d2 = (depth - 1) as nat;
    if i < g.len() {
        let child = spec_apply(b, g[i]);
        lemma_alpha_beta_window(child, d2, best, BOUND as int);
        let mi = full_val(child, d2);
        let v = spec_ab(child, d2, best, BOUND as int).0;
        assert(spec_child_score(b, g[i], d2) == mi);
        if mi > best {
            assert(v == mi);
            lemma_root_agree_max(b, g, i + 1, depth, mi, i);
        } else {
            assert(v <= best);
            lemma_root_agree_max(b, g, i + 1, depth, best, bi);
        }
    }
}

proof fn lemma_root_agree_min(b: BoardV, g: Seq<MoveSpec>, i: int, depth: nat, best: int, bi: int)
    requires
        depth >= 1,
        b.turn == Color::Black,
        1 <= i <= g.len(),
        0 <= bi < i,
        best == full_val(spec_apply(b, g[bi]), (depth - 1) as nat),
        -(WIN as int) <= best <= WIN as int,
        forall|j: int|
            0 <= j < i ==> full_val(spec_apply(b, #[trigger] g[j]), (depth - 1) as nat) >= best,
    ensures
        spec_ab_min(b, g, i, depth, -(BOUND as int), best, best, Some(bi)).1 == Some(
            spec_par_pick(b, g, i, (depth - 1) as nat, best, bi),
        ),
    decreases g.len() - i,
{
    let d2 = (depth - 1) as nat;
    if i < g.len() {
        let child = spec_apply(b, g[i]);
        lemma_alpha_beta_window(child, d2, -(BOUND as int), best);
        let mi = full_val(child, d2);
        let v = spec_ab(child, d2, -(BOUND as int), best).0;
        assert(spec_child_score(b, g[i], d2) == mi);
        if mi < best {
            assert(v == mi);
            lemma_root_agree_min(b, g, i + 1, depth, mi, i);
        } else {
            assert(v >= best);
            lemma_root_agree_min(b, g, i + 1, depth, best, bi);
        }
    }
}

/// The parallel fan-out and the sequential alpha-beta search choose the
/// same move on every live position, at every depth budget: at the root
/// the sequential window never closes, its running best tracks exactly
/// the first-wins maximum (minimum for Black) of the children's
/// full-window values, and those are just what the fan-out aggregates. In
/// particular the two selected moves have equal evaluated score.
pub proof fn lemma_parallel_matches_sequential(b: BoardV, depth: nat)
    requires
        b.squares.len() == 32,
        !spec_terminal(b),
    ensures
        spec_choose_par(b, depth) == spec_choose_seq(b, depth),
{
    let g = spec_gen(b);
    lemma_gen_legal(b);
    assert(g.len() > 0);
    if depth == 0 {
        // Both substitute the first move in generation order.
    } else if g.len() == 1 {
        assert(spec_ab(b, depth, -(BOUND as int), BOUND as int).1 == Some(0int));
        assert(spec_par_pick(
            b,
            g,
            1,
            (depth - 1) as nat,
            spec_child_score(b, g[0], (depth - 1) as nat),
            0,
        ) == 0);
    } else {
        let d2 = (depth - 1) as nat;
        let child0 = spec_apply(b, g[0]);
        lemma_alpha_beta_window(child0, d2, -(BOUND as int), BOUND as int);
        let m0 = full_val(child0, d2);
        assert(spec_child_score(b, g[0], d2) == m0);
        if b.turn == Color::Red {
            assert(spec_ab(child0, d2, -(BOUND as int), BOUND as int).0 == m0);
            assert(spec_ab_max(
                b,
                g,
                0,
                depth,
                -(BOUND as int),
                BOUND as int,
                -(BOUND as int),
                None,
            ) == spec_ab_max(b, g, 1, depth, m0, BOUND as int, m0, Some(0int)));
            lemma_root_agree_max(b, g, 1, depth, m0, 0);
        } else {
            assert(spec_ab(child0, d2, -(BOUND as int), BOUND as int).0 == m0);
            assert(spec_ab_min(
                b,
                g,
                0,
                depth,
                -(BOUND as int),
                BOUND as int,
                BOUND as int,
                None,
            ) == spec_ab_min(b, g, 1, depth, -(BOUND as int), m0, m0, Some(0int)));
            lemma_root_agree_min(b, g, 1, depth, m0, 0);
        }
    }
}

} // verus!
