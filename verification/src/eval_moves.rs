//! The executable move generator: depth-first enumeration of maximal
//! capture chains with backtracking, and simple advances only when no
//! capture exists anywhere for the side to move. Both the sequential and
//! the rayon-parallel variant return exactly `spec_gen` of the position.

use vstd::prelude::*;

use rayon::iter::IntoParallelIterator;
use rayon::iter::ParallelIterator;

use crate::board::Board;
use crate::board::Square;
use crate::gen::chain_moves;
use crate::gen::chain_moves_dirs;
use crate::gen::chains_upto;
use crate::gen::lemma_chain_extend;
use crate::gen::lemma_distinct_bounded_len;
use crate::gen::moves_views;
use crate::gen::simples_upto;
use crate::gen::spec_gen;
use crate::gen::square_chains;
use crate::gen::square_simples;
use crate::gen::square_simples_dirs;
use crate::mv::Move;
use crate::mv::as_ints;
use crate::mv::chain_prefix_ok;
use crate::mv::cont_ok;
use crate::mv::dir_allowed_exec;
use crate::mv::dir_delta;
use crate::mv::contains_idx;
use crate::mv::has_cont;
use crate::mv::jump_ok;
use crate::mv::jump_squares;
use crate::mv::lemma_as_ints_push;
use crate::mv::mid_of;
use crate::mv::own_piece_at;
use crate::mv::owns_piece;
use crate::mv::opponent_piece;
use crate::mv::step_ok;
use crate::mv::step_square;

verus! {

/// Enumerates the legal moves of a fixed position.
pub struct MoveEvaluator {
    pub board: Board,
}

impl MoveEvaluator {
    /// Wrap a position for move enumeration.
    pub fn new(board: Board) -> (r: MoveEvaluator)
        ensures
            r.board == board,
    {
        MoveEvaluator { board }
    }

    /// Depth-first search for every maximal continuation of the capture
    /// chain `path`/`caps`, appending each completed chain to `out`.
    /// `path` and `caps` are restored before returning, so sibling
    /// branches never see each other's state.
    fn find_mult_cap(
        &self,
        from: usize,
        path: &mut Vec<usize>,
        caps: &mut Vec<usize>,
        out: &mut Vec<Move>,
    )
        requires
            self.board@.squares.len() == 32,
            old(path)@.len() >= 1,
            from < 32,
            from as int == as_ints(old(path)@).last(),
            forall|k: int| 0 <= k < old(path)@.len() ==> old(path)@[k] < 32,
            chain_prefix_ok(self.board@, as_ints(old(path)@), as_ints(old(caps)@)),
        ensures
            final(path)@ == old(path)@,
            final(caps)@ == old(caps)@,
            moves_views(final(out)@) == moves_views(old(out)@) + chain_moves(
                self.board@,
                as_ints(old(path)@),
                as_ints(old(caps)@),
            ),
        decreases 33 - old(path)@.len(),
    {
        let ghost b = self.board@;
        let ghost path0 = as_ints(path@);
        let ghost caps0 = as_ints(caps@);
        let ghost out0 = out@;
        let piece = self.board.squares[path[0]];
        proof {
            assert(piece == b.squares[path0[0]]);
            assert forall|k: int| 0 <= k < path0.len() implies 0 <= #[trigger] path0[k] < 32 by {
                assert(path@[k] < 32);
            }
            lemma_distinct_bounded_len(path0);
        }
        let mut any: bool = false;
        let mut d: usize = 0;
        while d < 4
            invariant
                d <= 4,
                self.board@.squares.len() == 32,
                b == self.board@,
                path@ == old(path)@,
                caps@ == old(caps)@,
                path0 == as_ints(path@),
                caps0 == as_ints(caps@),
                path@.len() >= 1,
                path@.len() <= 32,
                from < 32,
                from as int == path0.last(),
                forall|k: int| 0 <= k < path@.len() ==> path@[k] < 32,
                piece == b.squares[path0[0]],
                chain_prefix_ok(b, path0, caps0),
                any == exists|d0: int| 0 <= d0 < d && cont_ok(b, piece, path0, caps0, d0),
                moves_views(out@) + chain_moves_dirs(b, path0, caps0, d as int) == moves_views(
                    out0,
                ) + chain_moves_dirs(b, path0, caps0, 0),
            decreases 4 - d,
        {
            let ghost out_pre = out@;
            let mut took: bool = false;
            if let Some((mid, land)) = jump_squares(&self.board, from, d) {
                let land_empty = self.board.squares[land] == Square::Empty;
                if opponent_piece(self.board.squares[mid], self.board.turn) && land_empty
                    && dir_allowed_exec(piece, dir_delta(d).0) && !contains_idx(caps, mid)
                    && !contains_idx(path, land) {
                    proof {
                        assert(jump_ok(b, piece, from as int, d as int));
                        assert(cont_ok(b, piece, path0, caps0, d as int));
                        lemma_chain_extend(b, path0, caps0, d as int);
                        lemma_as_ints_push(path@, land);
                        lemma_as_ints_push(caps@, mid);
                    }
                    let ghost path1 = path0.push(land as int);
                    let ghost caps1 = caps0.push(mid as int);
                    path.push(land);
                    caps.push(mid);
                    self.find_mult_cap(land, path, caps, out);
                    path.pop();
                    caps.pop();
                    proof {
                        // `path`/`caps` are restored exactly.
                        assert(path@ =~= old(path)@);
                        assert(caps@ =~= old(caps)@);
                        assert(as_ints(path@) =~= path0);
                        assert(as_ints(caps@) =~= caps0);
                        // This direction contributed exactly the chains of the
                        // extended prefix.
                        assert(chain_moves_dirs(b, path0, caps0, d as int) == chain_moves(
                            b,
                            path1,
                            caps1,
                        ) + chain_moves_dirs(b, path0, caps0, d + 1));
                        assert(moves_views(out@) + chain_moves_dirs(b, path0, caps0, d + 1)
                            =~= moves_views(out_pre) + chain_moves_dirs(b, path0, caps0, d as int));
                    }
                    any = true;
                    took = true;
                }
            }
            if !took {
                proof {
                    assert(!cont_ok(b, piece, path0, caps0, d as int));
                    assert(chain_moves_dirs(b, path0, caps0, d as int) == Seq::<
                        crate::mv::MoveSpec,
                    >::empty() + chain_moves_dirs(b, path0, caps0, d + 1));
                    assert(Seq::<crate::mv::MoveSpec>::empty() + chain_moves_dirs(
                        b,
                        path0,
                        caps0,
                        d + 1,
                    ) =~= chain_moves_dirs(b, path0, caps0, d + 1));
                }
            }
            d = d + 1;
        }
        proof {
            assert(any == has_cont(b, piece, path0, caps0)) by {
                if has_cont(b, piece, path0, caps0) {
                    let d0 = choose|d0: int| cont_ok(b, piece, path0, caps0, d0);
                    assert(0 <= d0 < 4);
                }
            }
            assert(chain_moves_dirs(b, path0, caps0, 4) =~= Seq::<crate::mv::MoveSpec>::empty());
        }
        if !any && path.len() >= 2 {
            let origin = path[0];
            let mv = Move::with_path(origin, from, copy_vec(caps), copy_vec(path));
            proof {
                assert(mv@ =~= (crate::mv::MoveSpec {
                    from: path0[0],
                    to: path0.last(),
                    captures: caps0,
                    path: path0,
                }));
            }
            let ghost mvv = mv@;
            let ghost out_pre = out@;
            out.push(mv);
            proof {
                assert(moves_views(out@) =~= moves_views(out_pre).push(mvv));
                assert(chain_moves(b, path0, caps0) == chain_moves_dirs(b, path0, caps0, 0)
                    + seq![mvv]);
                assert(moves_views(out@) =~= moves_views(out0) + chain_moves(b, path0, caps0));
            }
        } else {
            proof {
                assert(chain_moves(b, path0, caps0) == chain_moves_dirs(b, path0, caps0, 0));
                assert(moves_views(out@) =~= moves_views(out0) + chain_moves(b, path0, caps0));
            }
        }
    }

    /// All maximal capture chains on the board, in square order.
    fn collect_chains(&self) -> (r: Vec<Move>)
        requires
            self.board@.squares.len() == 32,
        ensures
            moves_views(r@) == chains_upto(self.board@, 32),
    {
        let ghost b = self.board@;
        let mut chains: Vec<Move> = Vec::new();
        let mut i: usize = 0;
        while i < 32
            invariant
                i <= 32,
                b == self.board@,
                self.board@.squares.len() == 32,
                moves_views(chains@) == chains_upto(b, i as int),
            decreases 32 - i,
        {
            let ghost pre = chains@;
            if owns_piece(self.board.squares[i], self.board.turn) {
                let mut path: Vec<usize> = vec![i];
                let mut caps: Vec<usize> = Vec::new();
                proof {
                    assert(as_ints(path@) =~= seq![i as int]);
                    assert(as_ints(caps@) =~= Seq::<int>::empty());
                    assert(own_piece_at(b, i as int));
                    assert(chain_prefix_ok(b, seq![i as int], Seq::<int>::empty()));
                }
                self.find_mult_cap(i, &mut path, &mut caps, &mut chains);
                proof {
                    assert(square_chains(b, i as int) == chain_moves(
                        b,
                        seq![i as int],
                        Seq::<int>::empty(),
                    ));
                }
            } else {
                proof {
                    assert(!own_piece_at(b, i as int));
                    assert(square_chains(b, i as int) =~= Seq::<crate::mv::MoveSpec>::empty());
                }
            }
            proof {
                assert(chains_upto(b, i + 1) == chains_upto(b, i as int) + square_chains(
                    b,
                    i as int,
                ));
                assert(moves_views(chains@) =~= chains_upto(b, i + 1));
            }
            i = i + 1;
        }
        chains
    }

    /// The simple advances available to the piece on `index`, in direction
    /// order.
    fn reg_moves(&self, index: usize) -> (r: Vec<Move>)
        requires
            self.board@.squares.len() == 32,
            index < 32,
        ensures
            moves_views(r@) == square_simples(self.board@, index as int),
    {
        let ghost b = self.board@;
        let mut out: Vec<Move> = Vec::new();
        let piece = self.board.squares[index];
        if !owns_piece(piece, self.board.turn) {
            proof {
                assert(square_simples(b, index as int) =~= Seq::<crate::mv::MoveSpec>::empty());
                assert(moves_views(out@) =~= square_simples(b, index as int));
            }
            return out;
        }
        let mut d: usize = 0;
        while d < 4
            invariant
                d <= 4,
                index < 32,
                b == self.board@,
                self.board@.squares.len() == 32,
                piece == b.squares[index as int],
                own_piece_at(b, index as int),
                moves_views(out@) + square_simples_dirs(b, index as int, d as int)
                    == square_simples_dirs(b, index as int, 0),
            decreases 4 - d,
        {
            let ghost out_pre = out@;
            let mut took: bool = false;
            if let Some(t) = step_square(&self.board, index, d) {
                if self.board.squares[t] == Square::Empty && dir_allowed_exec(
                    piece,
                    dir_delta(d).0,
                ) {
                    let mv = Move::new(index, t, Vec::new());
                    proof {
                        assert(step_ok(b, piece, index as int, d as int));
                        assert(as_ints(Seq::<usize>::empty()) =~= Seq::<int>::empty());
                        assert(mv@ =~= (crate::mv::MoveSpec {
                            from: index as int,
                            to: mid_of(index as int, d as int),
                            captures: Seq::<int>::empty(),
                            path: seq![index as int, mid_of(index as int, d as int)],
                        }));
                    }
                    let ghost mvv = mv@;
                    out.push(mv);
                    proof {
                        assert(moves_views(out@) =~= moves_views(out_pre).push(mvv));
                        assert(square_simples_dirs(b, index as int, d as int) == seq![mvv]
                            + square_simples_dirs(b, index as int, d + 1));
                        assert(moves_views(out@) + square_simples_dirs(b, index as int, d + 1)
                            =~= moves_views(out_pre) + square_simples_dirs(
                            b,
                            index as int,
                            d as int,
                        ));
                    }
                    took = true;
                }
            }
            if !took {
                proof {
                    assert(!step_ok(b, piece, index as int, d as int));
                    assert(square_simples_dirs(b, index as int, d as int) == Seq::<
                        crate::mv::MoveSpec,
                    >::empty() + square_simples_dirs(b, index as int, d + 1));
                    assert(Seq::<crate::mv::MoveSpec>::empty() + square_simples_dirs(
                        b,
                        index as int,
                        d + 1,
                    ) =~= square_simples_dirs(b, index as int, d + 1));
                }
            }
            d = d + 1;
        }
        proof {
            assert(square_simples_dirs(b, index as int, 4) =~= Seq::<
                crate::mv::MoveSpec,
            >::empty());
            assert(moves_views(out@) =~= square_simples(b, index as int));
        }
        out
    }

    /// Sequential enumeration of the complete legal move set: exactly the
    /// maximal capture chains when any capture exists, else exactly the
    /// simple advances.
    pub fn seq_possible_moves(&self) -> (r: Vec<Move>)
        requires
            self.board@.squares.len() == 32,
        ensures
            moves_views(r@) == spec_gen(self.board@),
    {
        let ghost b = self.board@;
        let chains = self.collect_chains();
        if chains.len() > 0 {
            return chains;
        }
        let mut moves: Vec<Move> = Vec::new();
        let mut i: usize = 0;
        while i < 32
            invariant
                i <= 32,
                b == self.board@,
                self.board@.squares.len() == 32,
                moves_views(moves@) == simples_upto(b, i as int),
            decreases 32 - i,
        {
            let ghost pre = moves@;
            let mut col = self.reg_moves(i);
            let ghost colv = col@;
            moves.append(&mut col);
            proof {
                assert(moves_views(moves@) =~= moves_views(pre) + moves_views(colv));
                assert(simples_upto(b, i + 1) == simples_upto(b, i as int) + square_simples(
                    b,
                    i as int,
                ));
                assert(moves_views(moves@) =~= simples_upto(b, i + 1));
            }
            i = i + 1;
        }
        moves
    }

    /// Relies on rayon's parallel iterators (`IntoParallelIterator` over a
    /// range, `ParallelIterator::map` and `collect`): mapping the indexed
    /// range 0..32 and collecting into a `Vec` yields the per-square
    /// results in index order, each computed by the verified `reg_moves`.
    #[verifier::external_body]
    fn par_reg_moves(&self) -> (r: Vec<Vec<Move>>)
        requires
            self.board@.squares.len() == 32,
        ensures
            r@.len() == 32,
            forall|i: int|
                0 <= i < 32 ==> moves_views(r@[i]@) == square_simples(self.board@, i),
    {
        (0..32usize).into_par_iter().map(|i| self.reg_moves(i)).collect()
    }

    /// Parallel enumeration of the complete legal move set. Capture chains
    /// are enumerated sequentially (the recursion is inherently ordered);
    /// when no capture exists the per-square simple advances are computed
    /// in parallel and concatenated in square order, so the result equals
    /// the sequential one.
    pub fn par_possible_moves(&self) -> (r: Vec<Move>)
        requires
            self.board@.squares.len() == 32,
        ensures
            moves_views(r@) == spec_gen(self.board@),
    {
        let ghost b = self.board@;
        let chains = self.collect_chains();
        if chains.len() > 0 {
            return chains;
        }
        let cols = self.par_reg_moves();
        let mut moves: Vec<Move> = Vec::new();
        let mut i: usize = 0;
        while i < 32
            invariant
                i <= 32,
                b == self.board@,
                self.board@.squares.len() == 32,
                cols@.len() == 32,
                forall|j: int| 0 <= j < 32 ==> moves_views(#[trigger] cols@[j]@) == square_simples(
                    b,
                    j,
                ),
                moves_views(moves@) == simples_upto(b, i as int),
            decreases 32 - i,
        {
            let col = &cols[i];
            let mut j: usize = 0;
            while j < col.len()
                invariant
                    j <= col@.len(),
                    i < 32,
                    moves_views(col@) == square_simples(b, i as int),
                    moves_views(moves@) == simples_upto(b, i as int) + moves_views(
                        col@.take(j as int),
                    ),
                decreases col@.len() - j,
            {
                let ghost pre = moves@;
                let dup = col[j].duplicate();
                let ghost dv = dup@;
                moves.push(dup);
                proof {
                    assert(dv == col@[j as int]@);
                    assert(moves_views(moves@) =~= moves_views(pre).push(dv));
                    assert(col@.take(j + 1) =~= col@.take(j as int).push(col@[j as int]));
                    assert(moves_views(col@.take(j + 1)) =~= moves_views(col@.take(j as int)).push(
                        dv,
                    ));
                    assert(moves_views(moves@) =~= simples_upto(b, i as int) + moves_views(
                        col@.take(j + 1),
                    ));
                }
                j = j + 1;
            }
            proof {
                assert(col@.take(col@.len() as int) =~= col@);
                assert(simples_upto(b, i + 1) == simples_upto(b, i as int) + square_simples(
                    b,
                    i as int,
                ));
                assert(moves_views(moves@) =~= simples_upto(b, i + 1));
            }
            i = i + 1;
        }
        proof {
            assert(moves_views(moves@) =~= spec_gen(b));
        }
        moves
    }
}

/// Copy of a vector of square indices.
fn copy_vec(v: &Vec<usize>) -> (r: Vec<usize>)
    ensures
        r@ == v@,
{
    let mut r: Vec<usize> = Vec::new();
    let mut i: usize = 0;
    while i < v.len()
        invariant
            i <= v@.len(),
            r@.len() == i,
            forall|j: int| 0 <= j < i ==> r@[j] == v@[j],
        decreases v@.len() - i,
    {
        r.push(v[i]);
        i = i + 1;
    }
    proof {
        assert(r@ =~= v@);
    }
    r
}

impl Board {
    /// All legal moves of the side to move, via the parallel enumerator.
    pub fn get_valid_moves(&self) -> (r: Vec<Move>)
        requires
            self@.squares.len() == 32,
        ensures
            moves_views(r@) == spec_gen(self@),
    {
        let evaluator = MoveEvaluator::new(self.duplicate());
        evaluator.par_possible_moves()
    }
}

} // verus!
