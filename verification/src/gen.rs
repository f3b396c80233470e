//! Mathematical definition of the legal move set: a depth-first enumeration
//! of maximal capture chains over every square (in ascending square and
//! direction order), and, only when no capture exists anywhere, the simple
//! one-square advances. The executable generator is proved to return
//! exactly this sequence.

use vstd::prelude::*;

use crate::board::BoardV;
use crate::mv::Move;
use crate::mv::MoveSpec;
use crate::mv::chain_maximal;
use crate::mv::chain_move_ok;
use crate::mv::chain_prefix_ok;
use crate::mv::cont_ok;
use crate::mv::jump_ok;
use crate::mv::land_of;
use crate::mv::mid_of;
use crate::mv::has_cont;
use crate::mv::own_piece_at;
use crate::mv::seg_dir_ok;
use crate::mv::seg_ok;
use crate::mv::step_ok;

verus! {

/// The models of a sequence of moves.
pub open spec fn moves_views(ms: Seq<Move>) -> Seq<MoveSpec> {
    ms.map_values(|m: Move| m@)
}

/// All maximal continuations of the partial capture chain `path`/`caps`,
/// as completed moves: each available jump is explored depth-first in
/// direction order, and the chain itself is emitted exactly when no jump
/// remains and at least one hop has been made.
pub open spec fn chain_moves(b: BoardV, path: Seq<int>, caps: Seq<int>) -> Seq<MoveSpec>
    decreases 33 - path.len(), 5int,
{
    if path.len() == 0 || path.len() > 32 {
        Seq::empty()
    } else {
        let ext = chain_moves_dirs(b, path, caps, 0);
        if !has_cont(b, b.squares[path[0]], path, caps) && path.len() >= 2 {
            ext + seq![MoveSpec { from: path[0], to: path.last(), captures: caps, path: path }]
        } else {
            ext
        }
    }
}

/// The chains reachable by first jumping in some direction `d' >= d`.
pub open spec fn chain_moves_dirs(b: BoardV, path: Seq<int>, caps: Seq<int>, d: int) -> Seq<
    MoveSpec,
>
    decreases 33 - path.len(), 4 - d,
{
    if path.len() == 0 || path.len() > 32 || d < 0 || d >= 4 {
        Seq::empty()
    } else {
        let piece = b.squares[path[0]];
        let first = if cont_ok(b, piece, path, caps, d) {
            chain_moves(
                b,
                path.push(land_of(path.last(), d)),
                caps.push(mid_of(path.last(), d)),
            )
        } else {
            Seq::empty()
        };
        first + chain_moves_dirs(b, path, caps, d + 1)
    }
}

/// All maximal capture chains starting on square `i`.
pub open spec fn square_chains(b: BoardV, i: int) -> Seq<MoveSpec> {
    if own_piece_at(b, i) {
        chain_moves(b, seq![i], Seq::empty())
    } else {
        Seq::empty()
    }
}

/// All maximal capture chains starting on squares below `n`.
pub open spec fn chains_upto(b: BoardV, n: int) -> Seq<MoveSpec>
    decreases n,
{
    if n <= 0 {
        Seq::empty()
    } else {
        chains_upto(b, n - 1) + square_chains(b, n - 1)
    }
}

/// The simple advances of the piece on `i` in directions `d' >= d`.
pub open spec fn square_simples_dirs(b: BoardV, i: int, d: int) -> Seq<MoveSpec>
    decreases 4 - d,
{
    if d < 0 || d >= 4 {
        Seq::empty()
    } else {
        let first = if step_ok(b, b.squares[i], i, d) {
            seq![
                MoveSpec {
                    from: i,
                    to: mid_of(i, d),
                    captures: Seq::empty(),
                    path: seq![i, mid_of(i, d)],
                },
            ]
        } else {
            Seq::empty()
        };
        first + square_simples_dirs(b, i, d + 1)
    }
}

/// All simple advances of the piece on square `i`.
pub open spec fn square_simples(b: BoardV, i: int) -> Seq<MoveSpec> {
    if own_piece_at(b, i) {
        square_simples_dirs(b, i, 0)
    } else {
        Seq::empty()
    }
}

/// All simple advances from squares below `n`.
pub open spec fn simples_upto(b: BoardV, n: int) -> Seq<MoveSpec>
    decreases n,
{
    if n <= 0 {
        Seq::empty()
    } else {
        simples_upto(b, n - 1) + square_simples(b, n - 1)
    }
}

/// The complete legal move set of the side to move, in generation order:
/// exactly the maximal capture chains when any capture exists anywhere
/// (mandatory-capture law), else exactly the simple advances.
pub open spec fn spec_gen(b: BoardV) -> Seq<MoveSpec> {
    if chains_upto(b, 32).len() > 0 {
        chains_upto(b, 32)
    } else {
        simples_upto(b, 32)
    }
}

/// Pairwise-distinct square indices drawn from the 32 squares number at
/// most 32.
pub proof fn lemma_distinct_bounded_len(s: Seq<int>)
    requires
        forall|j: int, k: int| 0 <= j < k < s.len() ==> s[j] != s[k],
        forall|j: int| 0 <= j < s.len() ==> 0 <= #[trigger] s[j] < 32,
    ensures
        s.len() <= 32,
{
    broadcast use vstd::set::group_set_axioms;
    broadcast use vstd::set_lib::group_set_lib_default;

    assert(s.no_duplicates());
    s.unique_seq_to_set();
    let range = vstd::set_lib::set_int_range(0, 32);
    vstd::set_lib::lemma_int_range(0, 32);
    assert(s.to_set().subset_of(range));
    vstd::set_lib::lemma_len_subset(s.to_set(), range);
}

/// What the generator guarantees of every emitted capture chain: a fully
/// legal, maximal chain starting at `origin` with at least one capture.
pub open spec fn sound_chain(b: BoardV, origin: int, m: MoveSpec) -> bool {
    &&& chain_move_ok(b, m)
    &&& chain_maximal(b, m)
    &&& m.from == origin
    &&& m.captures.len() >= 1
}

/// Every chain emitted from a valid partial chain is legal, maximal, and
/// starts at the chain's origin.
pub proof fn lemma_chain_moves_sound(b: BoardV, path: Seq<int>, caps: Seq<int>)
    requires
        1 <= path.len() <= 32,
        chain_prefix_ok(b, path, caps),
    ensures
        forall|j: int|
            0 <= j < chain_moves(b, path, caps).len() ==> sound_chain(
                b,
                path[0],
                #[trigger] chain_moves(b, path, caps)[j],
            ),
    decreases 33 - path.len(), 5int,
{
    lemma_chain_moves_dirs_sound(b, path, caps, 0);
    let ms = chain_moves(b, path, caps);
    let ext = chain_moves_dirs(b, path, caps, 0);
    assert forall|j: int| 0 <= j < ms.len() implies sound_chain(b, path[0], ms[j]) by {
        if j < ext.len() {
            assert(ms[j] == ext[j]);
        }
    }
}

pub proof fn lemma_chain_moves_dirs_sound(b: BoardV, path: Seq<int>, caps: Seq<int>, d: int)
    requires
        1 <= path.len() <= 32,
        chain_prefix_ok(b, path, caps),
    ensures
        forall|j: int|
            0 <= j < chain_moves_dirs(b, path, caps, d).len() ==> sound_chain(
                b,
                path[0],
                #[trigger] chain_moves_dirs(b, path, caps, d)[j],
            ),
    decreases 33 - path.len(), 4 - d,
{
    if 0 <= d < 4 {
        let piece = b.squares[path[0]];
        lemma_chain_moves_dirs_sound(b, path, caps, d + 1);
        let rest = chain_moves_dirs(b, path, caps, d + 1);
        let whole = chain_moves_dirs(b, path, caps, d);
        if cont_ok(b, piece, path, caps, d) {
            let p2 = path.push(land_of(path.last(), d));
            let c2 = caps.push(mid_of(path.last(), d));
            lemma_chain_extend(b, path, caps, d);
            if p2.len() <= 32 {
                lemma_chain_moves_sound(b, p2, c2);
            } else {
                // A path of 33 pairwise-distinct squares cannot exist.
                lemma_distinct_bounded_len(p2);
            }
            let first = chain_moves(b, p2, c2);
            assert(p2[0] == path[0]);
            assert forall|j: int| 0 <= j < whole.len() implies sound_chain(
                b,
                path[0],
                whole[j],
            ) by {
                if j < first.len() {
                    assert(whole[j] == first[j]);
                    assert(sound_chain(b, p2[0], first[j]));
                } else {
                    assert(whole[j] == rest[j - first.len()]);
                }
            }
        } else {
            assert forall|j: int| 0 <= j < whole.len() implies sound_chain(
                b,
                path[0],
                whole[j],
            ) by {
                assert(whole[j] == rest[j]);
            }
        }
    }
}

/// A partial chain that has made a hop, or can still make one, emits at
/// least one chain.
pub proof fn lemma_chain_moves_nonempty(b: BoardV, path: Seq<int>, caps: Seq<int>)
    requires
        1 <= path.len() <= 32,
        chain_prefix_ok(b, path, caps),
        path.len() >= 2 || has_cont(b, b.squares[path[0]], path, caps),
    ensures
        chain_moves(b, path, caps).len() >= 1,
    decreases 33 - path.len(), 5int,
{
    let piece = b.squares[path[0]];
    if has_cont(b, piece, path, caps) {
        let d = choose|d: int| cont_ok(b, piece, path, caps, d);
        lemma_chain_moves_dirs_nonempty(b, path, caps, 0, d);
    }
}

pub proof fn lemma_chain_moves_dirs_nonempty(
    b: BoardV,
    path: Seq<int>,
    caps: Seq<int>,
    d: int,
    dw: int,
)
    requires
        1 <= path.len() <= 32,
        chain_prefix_ok(b, path, caps),
        0 <= d <= dw < 4,
        cont_ok(b, b.squares[path[0]], path, caps, dw),
    ensures
        chain_moves_dirs(b, path, caps, d).len() >= 1,
    decreases 33 - path.len(), 4 - d,
{
    let piece = b.squares[path[0]];
    if cont_ok(b, piece, path, caps, d) {
        let p2 = path.push(land_of(path.last(), d));
        let c2 = caps.push(mid_of(path.last(), d));
        lemma_chain_extend(b, path, caps, d);
        lemma_distinct_bounded_len(p2);
        lemma_chain_moves_nonempty(b, p2, c2);
    } else {
        lemma_chain_moves_dirs_nonempty(b, path, caps, d + 1, dw);
    }
}

/// When no continuation exists at all, no direction contributes anything.
pub proof fn lemma_chain_moves_dirs_empty(b: BoardV, path: Seq<int>, caps: Seq<int>, d: int)
    requires
        !has_cont(b, b.squares[path[0]], path, caps),
    ensures
        chain_moves_dirs(b, path, caps, d).len() == 0,
    decreases 4 - d,
{
    if 0 <= d < 4 && path.len() >= 1 && path.len() <= 32 {
        assert(!cont_ok(b, b.squares[path[0]], path, caps, d));
        lemma_chain_moves_dirs_empty(b, path, caps, d + 1);
    }
}

/// Chains collected square by square are all sound.
pub proof fn lemma_chains_upto_sound(b: BoardV, n: int)
    requires
        n <= 32,
    ensures
        forall|j: int|
            0 <= j < chains_upto(b, n).len() ==> sound_chain(
                b,
                (#[trigger] chains_upto(b, n)[j]).from,
                chains_upto(b, n)[j],
            ),
    decreases n,
{
    if n > 0 {
        lemma_chains_upto_sound(b, n - 1);
        let pre = chains_upto(b, n - 1);
        let sq = square_chains(b, n - 1);
        let whole = chains_upto(b, n);
        if own_piece_at(b, n - 1) {
            assert(chain_prefix_ok(b, seq![n - 1], Seq::<int>::empty()));
            lemma_chain_moves_sound(b, seq![n - 1], Seq::<int>::empty());
        }
        assert forall|j: int| 0 <= j < whole.len() implies sound_chain(
            b,
            whole[j].from,
            whole[j],
        ) by {
            if j < pre.len() {
                assert(whole[j] == pre[j]);
            } else {
                assert(whole[j] == sq[j - pre.len()]);
                assert(sound_chain(b, seq![n - 1][0], sq[j - pre.len()]));
            }
        }
    }
}

/// A capture exists somewhere if and only if the chain enumeration is
/// non-empty.
pub proof fn lemma_has_capture_iff_chains(b: BoardV)
    requires
        b.squares.len() == 32,
    ensures
        crate::mv::has_capture(b) <==> chains_upto(b, 32).len() > 0,
{
    if crate::mv::has_capture(b) {
        let i = choose|i: int| crate::mv::has_jump_from(b, i);
        let d = choose|d: int| jump_ok(b, b.squares[i], i, d);
        let path = seq![i];
        let caps = Seq::<int>::empty();
        assert(chain_prefix_ok(b, path, caps));
        assert(cont_ok(b, b.squares[i], path, caps, d)) by {
            assert(path.last() == i);
            if path.contains(land_of(i, d)) {
                assert(path[0] == land_of(i, d));
            }
        }
        lemma_chain_moves_nonempty(b, path, caps);
        lemma_chains_upto_contains_square(b, 32, i);
    }
    if chains_upto(b, 32).len() > 0 {
        let i = lemma_chains_upto_source(b, 32);
        assert(square_chains(b, i).len() > 0);
        assert(own_piece_at(b, i));
        let path = seq![i];
        let caps = Seq::<int>::empty();
        let piece = b.squares[i];
        assert(has_cont(b, piece, path, caps)) by {
            if !has_cont(b, piece, path, caps) {
                lemma_chain_moves_dirs_empty(b, path, caps, 0);
                assert(chain_moves(b, path, caps).len() == 0);
            }
        }
        let d = choose|d: int| cont_ok(b, piece, path, caps, d);
        assert(jump_ok(b, b.squares[i], i, d));
        assert(crate::mv::has_jump_from(b, i));
    }
}

/// If the piece on `i` contributes chains, the full enumeration is
/// non-empty.
pub proof fn lemma_chains_upto_contains_square(b: BoardV, n: int, i: int)
    requires
        0 <= i < n,
    ensures
        chains_upto(b, n).len() >= square_chains(b, i).len(),
    decreases n,
{
    if i < n - 1 {
        lemma_chains_upto_contains_square(b, n - 1, i);
    }
}

/// A non-empty enumeration names a square whose piece contributes chains.
pub proof fn lemma_chains_upto_source(b: BoardV, n: int) -> (i: int)
    requires
        chains_upto(b, n).len() > 0,
    ensures
        0 <= i < n,
        square_chains(b, i).len() > 0,
    decreases n,
{
    if n <= 0 {
        0
    } else if square_chains(b, n - 1).len() > 0 {
        n - 1
    } else {
        lemma_chains_upto_source(b, n - 1)
    }
}

/// The simple advances collected square by square, related to the
/// existence of any advance.
pub proof fn lemma_square_simples_dirs_sound(b: BoardV, i: int, d: int)
    requires
        0 <= i < 32,
        own_piece_at(b, i),
    ensures
        forall|j: int|
            0 <= j < square_simples_dirs(b, i, d).len() ==> crate::mv::simple_move_ok(
                b,
                #[trigger] square_simples_dirs(b, i, d)[j],
            ),
    decreases 4 - d,
{
    if 0 <= d < 4 {
        lemma_square_simples_dirs_sound(b, i, d + 1);
        let rest = square_simples_dirs(b, i, d + 1);
        let whole = square_simples_dirs(b, i, d);
        if step_ok(b, b.squares[i], i, d) {
            let m = MoveSpec {
                from: i,
                to: mid_of(i, d),
                captures: Seq::<int>::empty(),
                path: seq![i, mid_of(i, d)],
            };
            assert(crate::mv::simple_dir_ok(b, i, mid_of(i, d), d));
            assert(m.path =~= seq![m.from, m.to]);
            assert(crate::mv::simple_move_ok(b, m));
            assert forall|j: int| 0 <= j < whole.len() implies crate::mv::simple_move_ok(
                b,
                whole[j],
            ) by {
                if j == 0 {
                    assert(whole[j] == m);
                } else {
                    assert(whole[j] == rest[j - 1]);
                }
            }
        } else {
            assert forall|j: int| 0 <= j < whole.len() implies crate::mv::simple_move_ok(
                b,
                whole[j],
            ) by {
                assert(whole[j] == rest[j]);
            }
        }
    }
}

pub proof fn lemma_square_simples_dirs_nonempty(b: BoardV, i: int, d: int, dw: int)
    requires
        0 <= d <= dw < 4,
        step_ok(b, b.squares[i], i, dw),
    ensures
        square_simples_dirs(b, i, d).len() >= 1,
    decreases 4 - d,
{
    if !step_ok(b, b.squares[i], i, d) {
        lemma_square_simples_dirs_nonempty(b, i, d + 1, dw);
    }
}

pub proof fn lemma_square_simples_dirs_empty_source(b: BoardV, i: int, d: int) -> (dw: int)
    requires
        square_simples_dirs(b, i, d).len() > 0,
        0 <= d,
    ensures
        d <= dw < 4,
        step_ok(b, b.squares[i], i, dw),
    decreases 4 - d,
{
    if d < 4 && step_ok(b, b.squares[i], i, d) {
        d
    } else if d < 4 {
        lemma_square_simples_dirs_empty_source(b, i, d + 1)
    } else {
        0
    }
}

pub proof fn lemma_simples_upto_contains_square(b: BoardV, n: int, i: int)
    requires
        0 <= i < n,
    ensures
        simples_upto(b, n).len() >= square_simples(b, i).len(),
    decreases n,
{
    if i < n - 1 {
        lemma_simples_upto_contains_square(b, n - 1, i);
    }
}

pub proof fn lemma_simples_upto_source(b: BoardV, n: int) -> (i: int)
    requires
        simples_upto(b, n).len() > 0,
    ensures
        0 <= i < n,
        square_simples(b, i).len() > 0,
    decreases n,
{
    if n <= 0 {
        0
    } else if square_simples(b, n - 1).len() > 0 {
        n - 1
    } else {
        lemma_simples_upto_source(b, n - 1)
    }
}

/// A simple advance exists somewhere if and only if the simple-move
/// enumeration is non-empty.
pub proof fn lemma_has_simple_iff_simples(b: BoardV)
    requires
        b.squares.len() == 32,
    ensures
        crate::mv::has_simple(b) <==> simples_upto(b, 32).len() > 0,
{
    if crate::mv::has_simple(b) {
        let i = choose|i: int| crate::mv::has_step_from(b, i);
        let d = choose|d: int| step_ok(b, b.squares[i], i, d);
        lemma_square_simples_dirs_nonempty(b, i, 0, d);
        lemma_simples_upto_contains_square(b, 32, i);
    }
    if simples_upto(b, 32).len() > 0 {
        let i = lemma_simples_upto_source(b, 32);
        assert(own_piece_at(b, i));
        let dw = lemma_square_simples_dirs_empty_source(b, i, 0);
        assert(crate::mv::has_step_from(b, i));
    }
}

pub proof fn lemma_simples_upto_sound(b: BoardV, n: int)
    requires
        n <= 32,
    ensures
        forall|j: int|
            0 <= j < simples_upto(b, n).len() ==> crate::mv::simple_move_ok(
                b,
                #[trigger] simples_upto(b, n)[j],
            ) && (#[trigger] simples_upto(b, n)[j]).captures.len() == 0,
    decreases n,
{
    if n > 0 {
        lemma_simples_upto_sound(b, n - 1);
        let pre = simples_upto(b, n - 1);
        let sq = square_simples(b, n - 1);
        let whole = simples_upto(b, n);
        if own_piece_at(b, n - 1) {
            lemma_square_simples_dirs_sound(b, n - 1, 0);
        }
        assert forall|j: int|
            0 <= j < whole.len() implies crate::mv::simple_move_ok(b, whole[j]) && whole[
            j].captures.len() == 0 by {
            if j < pre.len() {
                assert(whole[j] == pre[j]);
            } else {
                assert(whole[j] == sq[j - pre.len()]);
            }
        }
    }
}

proof fn lemma_chain_dirs_complete(
    b: BoardV,
    m: MoveSpec,
    path: Seq<int>,
    caps: Seq<int>,
    d0: int,
    d: int,
)
    requires
        0 <= d0 <= d < 4,
        1 <= path.len() <= 32,
        cont_ok(b, b.squares[path[0]], path, caps, d),
        chain_moves(
            b,
            path.push(land_of(path.last(), d)),
            caps.push(mid_of(path.last(), d)),
        ).contains(m),
    ensures
        chain_moves_dirs(b, path, caps, d0).contains(m),
    decreases d - d0,
{
    let piece = b.squares[path[0]];
    let whole = chain_moves_dirs(b, path, caps, d0);
    if d0 == d {
        let first = chain_moves(
            b,
            path.push(land_of(path.last(), d)),
            caps.push(mid_of(path.last(), d)),
        );
        let j = choose|j: int| 0 <= j < first.len() && first[j] == m;
        assert(whole[j] == m);
    } else {
        lemma_chain_dirs_complete(b, m, path, caps, d0 + 1, d);
        let rest = chain_moves_dirs(b, path, caps, d0 + 1);
        let j = choose|j: int| 0 <= j < rest.len() && rest[j] == m;
        let first_len: int = if cont_ok(b, piece, path, caps, d0) {
            chain_moves(
                b,
                path.push(land_of(path.last(), d0)),
                caps.push(mid_of(path.last(), d0)),
            ).len() as int
        } else {
            0
        };
        assert(whole[first_len + j] == m);
    }
}

/// Every maximal legal chain is found by the search from each of its own
/// prefixes.
proof fn lemma_chain_complete_from(b: BoardV, m: MoveSpec, n: int)
    requires
        chain_move_ok(b, m),
        chain_maximal(b, m),
        1 <= n <= m.path.len(),
    ensures
        chain_moves(b, m.path.take(n), m.captures.take(n - 1)).contains(m),
    decreases m.path.len() - n,
{
    let path = m.path.take(n);
    let caps = m.captures.take(n - 1);
    let piece = b.squares[m.path[0]];
    lemma_distinct_bounded_len(m.path);
    assert(path[0] == m.path[0]);
    assert(path.last() == m.path[n - 1]);
    if n == m.path.len() {
        assert(path =~= m.path);
        assert(caps =~= m.captures);
        assert(!has_cont(b, piece, path, caps));
        let ext = chain_moves_dirs(b, path, caps, 0);
        let single = MoveSpec { from: path[0], to: path.last(), captures: caps, path: path };
        assert(single =~= m);
        assert(chain_moves(b, path, caps)[ext.len() as int] == m);
        assert(chain_moves(b, path, caps).contains(m));
    } else {
        let k = n - 1;
        assert(seg_ok(b, m.path, m.captures, k));
        let d = choose|d: int| seg_dir_ok(b, m.path, m.captures, k, d);
        assert(!caps.contains(m.captures[k])) by {
            if caps.contains(m.captures[k]) {
                let j = choose|j: int| 0 <= j < caps.len() && caps[j] == m.captures[k];
                assert(m.captures[j] != m.captures[k]);
            }
        }
        assert(!path.contains(m.path[k + 1])) by {
            if path.contains(m.path[k + 1]) {
                let j = choose|j: int| 0 <= j < path.len() && path[j] == m.path[k + 1];
                assert(m.path[j] != m.path[k + 1]);
            }
        }
        assert(cont_ok(b, piece, path, caps, d));
        assert(path.push(land_of(path.last(), d)) =~= m.path.take(n + 1));
        assert(caps.push(mid_of(path.last(), d)) =~= m.captures.take(n));
        lemma_chain_complete_from(b, m, n + 1);
        lemma_chain_dirs_complete(b, m, path, caps, 0, d);
        assert(has_cont(b, piece, path, caps));
        assert(chain_moves(b, path, caps) == chain_moves_dirs(b, path, caps, 0));
    }
}

proof fn lemma_chains_upto_member(b: BoardV, n: int, i: int, m: MoveSpec)
    requires
        0 <= i < n,
        square_chains(b, i).contains(m),
    ensures
        chains_upto(b, n).contains(m),
    decreases n,
{
    if i == n - 1 {
        let j = choose|j: int| 0 <= j < square_chains(b, i).len() && square_chains(b, i)[j] == m;
        assert(chains_upto(b, n)[chains_upto(b, n - 1).len() + j] == m);
    } else {
        lemma_chains_upto_member(b, n - 1, i, m);
        let pre = chains_upto(b, n - 1);
        let j = choose|j: int| 0 <= j < pre.len() && pre[j] == m;
        assert(chains_upto(b, n)[j] == m);
    }
}

proof fn lemma_simple_dirs_complete(b: BoardV, m: MoveSpec, d0: int, d: int)
    requires
        0 <= d0 <= d < 4,
        m.captures.len() == 0,
        m.path == seq![m.from, m.to],
        crate::mv::simple_dir_ok(b, m.from, m.to, d),
    ensures
        square_simples_dirs(b, m.from, d0).contains(m),
    decreases d - d0,
{
    let whole = square_simples_dirs(b, m.from, d0);
    if d0 == d {
        let single = MoveSpec {
            from: m.from,
            to: mid_of(m.from, d),
            captures: Seq::empty(),
            path: seq![m.from, mid_of(m.from, d)],
        };
        assert(single =~= m);
        assert(whole[0] == m);
    } else {
        lemma_simple_dirs_complete(b, m, d0 + 1, d);
        let rest = square_simples_dirs(b, m.from, d0 + 1);
        let j = choose|j: int| 0 <= j < rest.len() && rest[j] == m;
        let first_len: int = if step_ok(b, b.squares[m.from], m.from, d0) {
            1
        } else {
            0
        };
        assert(whole[first_len + j] == m);
    }
}

proof fn lemma_simples_upto_member(b: BoardV, n: int, i: int, m: MoveSpec)
    requires
        0 <= i < n,
        square_simples(b, i).contains(m),
    ensures
        simples_upto(b, n).contains(m),
    decreases n,
{
    if i == n - 1 {
        let j = choose|j: int|
            0 <= j < square_simples(b, i).len() && square_simples(b, i)[j] == m;
        assert(simples_upto(b, n)[simples_upto(b, n - 1).len() + j] == m);
    } else {
        lemma_simples_upto_member(b, n - 1, i, m);
        let pre = simples_upto(b, n - 1);
        let j = choose|j: int| 0 <= j < pre.len() && pre[j] == m;
        assert(simples_upto(b, n)[j] == m);
    }
}

/// Completeness of the enumeration: the generated sequence holds every
/// legal maximal capture chain, and, when no capture exists, every legal
/// simple advance. Together with `lemma_gen_legal`, the generated move
/// set is exactly the complete legal move set of the side to move.
pub proof fn lemma_gen_complete(b: BoardV, m: MoveSpec)
    requires
        b.squares.len() == 32,
        crate::mv::spec_is_legal(b, m),
        m.captures.len() > 0 ==> chain_maximal(b, m),
    ensures
        spec_gen(b).contains(m),
{
    lemma_has_capture_iff_chains(b);
    if m.captures.len() > 0 {
        assert(seg_ok(b, m.path, m.captures, 0));
        let d = choose|d: int| seg_dir_ok(b, m.path, m.captures, 0, d);
        assert(jump_ok(b, b.squares[m.path[0]], m.path[0], d));
        assert(crate::mv::has_jump_from(b, m.path[0]));
        lemma_chain_complete_from(b, m, 1);
        assert(m.path.take(1) =~= seq![m.path[0]]);
        assert(m.captures.take(0) =~= Seq::<int>::empty());
        assert(square_chains(b, m.path[0]).contains(m));
        lemma_chains_upto_member(b, 32, m.path[0], m);
        assert(chains_upto(b, 32).len() > 0) by {
            let whole = chains_upto(b, 32);
            let j = choose|j: int| 0 <= j < whole.len() && whole[j] == m;
        }
    } else {
        let d = choose|d: int| crate::mv::simple_dir_ok(b, m.from, m.to, d);
        assert(m.path =~= seq![m.from, m.to]);
        lemma_simple_dirs_complete(b, m, 0, d);
        assert(square_simples(b, m.from).contains(m));
        lemma_simples_upto_member(b, 32, m.from, m);
    }
}

/// Every generated move is legal, and the move set is empty exactly when
/// the side to move has no legal action.
pub proof fn lemma_gen_legal(b: BoardV)
    requires
        b.squares.len() == 32,
    ensures
        forall|k: int|
            0 <= k < spec_gen(b).len() ==> crate::mv::spec_is_legal(b, #[trigger] spec_gen(b)[k]),
        spec_gen(b).len() == 0 <==> (!crate::mv::has_capture(b) && !crate::mv::has_simple(b)),
        crate::mv::has_capture(b) ==> forall|k: int|
            0 <= k < spec_gen(b).len() ==> (#[trigger] spec_gen(b)[k]).captures.len() >= 1,
        !crate::mv::has_capture(b) ==> forall|k: int|
            0 <= k < spec_gen(b).len() ==> (#[trigger] spec_gen(b)[k]).captures.len() == 0,
{
    lemma_has_capture_iff_chains(b);
    lemma_has_simple_iff_simples(b);
    lemma_chains_upto_sound(b, 32);
    lemma_simples_upto_sound(b, 32);
}

/// A valid partial chain extended by an available jump is again a valid
/// partial chain.
pub proof fn lemma_chain_extend(b: BoardV, path: Seq<int>, caps: Seq<int>, d: int)
    requires
        chain_prefix_ok(b, path, caps),
        cont_ok(b, b.squares[path[0]], path, caps, d),
    ensures
        chain_prefix_ok(
            b,
            path.push(land_of(path.last(), d)),
            caps.push(mid_of(path.last(), d)),
        ),
{
    let land = land_of(path.last(), d);
    let mid = mid_of(path.last(), d);
    let p2 = path.push(land);
    let c2 = caps.push(mid);
    let n = caps.len() as int;
    assert(p2[n] == path.last());
    assert(seg_dir_ok(b, p2, c2, n, d)) by {
        assert forall|j: int| 0 <= j < n implies c2[j] != c2[n] by {
            if caps[j] == mid {
                assert(caps.contains(mid));
            }
        }
    }
    assert forall|k: int| 0 <= k < c2.len() implies seg_ok(b, p2, c2, k) by {
        if k < n {
            assert(seg_ok(b, path, caps, k));
            let d0 = choose|d0: int| seg_dir_ok(b, path, caps, k, d0);
            assert(seg_dir_ok(b, p2, c2, k, d0));
            assert(seg_ok(b, p2, c2, k));
        } else {
            assert(seg_dir_ok(b, p2, c2, k, d));
        }
    }
    assert forall|j: int, k: int| 0 <= j < k < p2.len() implies p2[j] != p2[k] by {
        if k == p2.len() - 1 {
            if path[j] == land {
                assert(path.contains(land));
            }
        }
    }
}

} // verus!
