use checkers_core::Board;
use checkers_core::Color;
use checkers_core::Square;
use checkers_core::ab_ai::ab_ai;
use checkers_core::ab_ai::bar;
use checkers_core::ab_ai::minimax_ab;
use checkers_core::ai::choose_best_move;
use checkers_core::ai::parallel_loss_function;
use checkers_core::eval_moves::MoveEvaluator;

fn empty_board(turn: Color) -> Board {
    Board { squares: vec![Square::Empty; 32], turn, red_pieces: 0, black_pieces: 0 }
}

fn place(board: &mut Board, idx: usize, sq: Square) {
    board.squares[idx] = sq;
    match sq {
        Square::Man(Color::Red) | Square::King(Color::Red) => board.red_pieces += 1,
        Square::Man(Color::Black) | Square::King(Color::Black) => board.black_pieces += 1,
        Square::Empty => {}
    }
}

#[test]
fn eval_initial_position_is_balanced() {
    let b = Board::new();
    assert_eq!(bar(&b), 0);
}

#[test]
fn eval_exact_single_man() {
    // A lone red man on square 13 = (row 3, column 2):
    // 140 material + (7 - 3) * 10 advancement, no edge penalty.
    let mut b = empty_board(Color::Red);
    place(&mut b, 13, Square::Man(Color::Red));
    assert_eq!(bar(&b), 180);
}

#[test]
fn eval_exact_edge_and_king() {
    // A red king on square 12 = (row 3, column 0): 350 material,
    // 210 - 30 * |7 - 2 * 3| = 180 centrality, -35 edge penalty.
    let mut b = empty_board(Color::Red);
    place(&mut b, 12, Square::King(Color::Red));
    assert_eq!(bar(&b), 495);
    // The mirrored black king on square 19 = (row 4, column 7) scores
    // the exact negative.
    let mut b2 = empty_board(Color::Red);
    place(&mut b2, 19, Square::King(Color::Black));
    assert_eq!(bar(&b2), -495);
}

// Scenario: standard initial position at depth 1. No captures exist at
// the start, so the engine must return one of the legal simple opening
// advances.
#[test]
fn opening_move_is_a_simple_advance() {
    let b = Board::new();
    for parallel in [false, true] {
        let m = choose_best_move(&b, 1, parallel).expect("the opening has moves");
        assert!(m.captures.is_empty());
        assert_eq!(m.path.len(), 2);
        // It is one of the generated legal moves.
        let legal = b.get_valid_moves();
        assert!(legal
            .iter()
            .any(|l| l.from == m.from && l.to == m.to && l.path == m.path));
        // And it is playable.
        let mut b2 = b.duplicate();
        assert!(b2.make_move(&m).is_ok());
    }
}

// Scenario: exactly one capture available and no other captures. The
// generator returns exactly that jump and excludes all simple advances.
#[test]
fn lone_capture_is_the_only_move() {
    let mut b = empty_board(Color::Red);
    place(&mut b, 21, Square::Man(Color::Red)); // (5, 2)
    place(&mut b, 16, Square::Man(Color::Black)); // (4, 1)
    place(&mut b, 25, Square::Man(Color::Red)); // (6, 3), quiet moves only
    let moves = b.get_valid_moves();
    assert_eq!(moves.len(), 1);
    assert_eq!(moves[0].from, 21);
    assert_eq!(moves[0].to, 12);
    assert_eq!(moves[0].captures, vec![16]);
    assert_eq!(moves[0].path, vec![21, 12]);
}

// Scenario: a man can jump two opposing pieces in sequence ending at a
// single square; the generated move records both captures and the full
// three-square path.
#[test]
fn double_jump_is_generated_maximally() {
    let mut b = empty_board(Color::Red);
    place(&mut b, 21, Square::Man(Color::Red)); // (5, 2)
    place(&mut b, 16, Square::Man(Color::Black)); // (4, 1)
    place(&mut b, 8, Square::Man(Color::Black)); // (2, 1)
    let moves = b.get_valid_moves();
    assert_eq!(moves.len(), 1);
    assert_eq!(moves[0].captures.len(), 2);
    assert_eq!(moves[0].path.len(), 3);
    assert_eq!(moves[0].path, vec![21, 12, 5]);
    assert_eq!(moves[0].captures, vec![16, 8]);
    // The intermediate single jump alone must not be offered.
    assert!(moves.iter().all(|m| m.to != 12));
}

// Scenario: the side to move still has a piece but no legal action; the
// game is over and the opponent wins.
#[test]
fn stuck_side_loses() {
    let mut b = empty_board(Color::Red);
    place(&mut b, 28, Square::Man(Color::Red)); // (7, 0), boxed in
    place(&mut b, 24, Square::Man(Color::Black)); // (6, 1)
    place(&mut b, 21, Square::Man(Color::Black)); // (5, 2) blocks the jump
    assert!(b.red_pieces > 0);
    let moves = b.get_valid_moves();
    assert!(moves.is_empty());
    assert!(b.is_game_over());
    assert_eq!(b.get_winner(), Some(Color::Black));
    assert!(choose_best_move(&b, 3, false).is_none());
    assert!(choose_best_move(&b, 3, true).is_none());
}

#[test]
fn mandatory_capture_in_generated_set() {
    // With a capture available, no simple advance is ever mixed in.
    let mut b = empty_board(Color::Red);
    place(&mut b, 21, Square::Man(Color::Red));
    place(&mut b, 16, Square::Man(Color::Black));
    place(&mut b, 25, Square::Man(Color::Red));
    place(&mut b, 29, Square::Man(Color::Red));
    let moves = b.get_valid_moves();
    assert!(!moves.is_empty());
    assert!(moves.iter().all(|m| !m.captures.is_empty()));
}

#[test]
fn generated_paths_are_wellformed() {
    // On the opening position and after one reply, every generated move
    // has distinct, in-bounds, diagonally connected path squares.
    let mut b = Board::new();
    let first = b.get_valid_moves()[0].duplicate();
    b.make_move(&first).unwrap();
    for m in b.get_valid_moves() {
        assert!(m.path.len() >= 2);
        for (k, &sq) in m.path.iter().enumerate() {
            assert!(sq < 32);
            for &other in &m.path[k + 1..] {
                assert_ne!(sq, other);
            }
        }
        for w in m.path.windows(2) {
            let (r0, c0) = b.index_to_coords(w[0]);
            let (r1, c1) = b.index_to_coords(w[1]);
            let dr = (r0 as i32 - r1 as i32).abs();
            let dc = (c0 as i32 - c1 as i32).abs();
            assert_eq!(dr, dc);
            assert!(dr == 1 || dr == 2);
        }
        // No generated move starts on an empty square.
        assert_ne!(b.squares[m.from], Square::Empty);
    }
}

#[test]
fn sequential_and_parallel_generators_agree() {
    let boards = {
        let mut quiet = empty_board(Color::Black);
        place(&mut quiet, 9, Square::Man(Color::Black));
        place(&mut quiet, 22, Square::Man(Color::Red));
        vec![Board::new(), quiet]
    };
    for b in boards {
        let seq = MoveEvaluator::new(b.duplicate()).seq_possible_moves();
        let par = MoveEvaluator::new(b.duplicate()).par_possible_moves();
        assert_eq!(seq.len(), par.len());
        assert!(!seq.is_empty());
        for (s, p) in seq.iter().zip(par.iter()) {
            assert_eq!(s.from, p.from);
            assert_eq!(s.to, p.to);
            assert_eq!(s.captures, p.captures);
            assert_eq!(s.path, p.path);
        }
    }
}

// The parallel fan-out and the sequential search agree on positions with
// no pruning-order ties: same chosen move, hence equal evaluated score.
#[test]
fn parallel_and_sequential_pick_equal_moves() {
    // Black to move; retreating toward the edge column costs 35, so the
    // two replies have strictly different values at every depth.
    let mut b = empty_board(Color::Black);
    place(&mut b, 8, Square::Man(Color::Black)); // (2, 1)
    place(&mut b, 22, Square::Man(Color::Red)); // (5, 4), far away
    for depth in [1u32, 3u32] {
        let seq = choose_best_move(&b, depth, false).expect("black can move");
        let par = choose_best_move(&b, depth, true).expect("black can move");
        assert_eq!(seq.from, par.from);
        assert_eq!(seq.to, par.to);
        assert_eq!(seq.captures, par.captures);
    }
}

#[test]
fn search_prefers_the_winning_capture() {
    // Red can capture the last black piece; any search depth must find it.
    let mut b = empty_board(Color::Red);
    place(&mut b, 21, Square::Man(Color::Red));
    place(&mut b, 16, Square::Man(Color::Black));
    let m = ab_ai(&b, 4).expect("red has a move");
    assert_eq!(m.captures, vec![16]);
    let p = parallel_loss_function(&b, 4).expect("red has a move");
    assert_eq!(p.captures, vec![16]);
    // The reply is forced, so the search scores the resulting position
    // statically: a lone red man on square 12 = (3, 0) is worth
    // 140 + 40 - 35.
    let (value, best) = minimax_ab(&b, 4, -2_000_000, 2_000_000);
    assert_eq!(value, 145);
    assert!(best.is_some());
}

#[test]
fn forced_reply_is_returned() {
    // Exactly one legal move: the search returns it without burning depth.
    let mut b = empty_board(Color::Red);
    place(&mut b, 21, Square::Man(Color::Red));
    place(&mut b, 16, Square::Man(Color::Black));
    let (_, best) = minimax_ab(&b, 5, -2_000_000, 2_000_000);
    let best = best.expect("forced move reported");
    assert_eq!(best.from, 21);
    assert_eq!(best.to, 12);
}
