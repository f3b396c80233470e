use checkers_core::Board;
use checkers_core::Color;
use checkers_core::Move;
use checkers_core::Square;
use checkers_core::mv::is_valid_move;
use checkers_core::mv::promote;

fn empty_board(turn: Color) -> Board {
    Board { squares: vec![Square::Empty; 32], turn, red_pieces: 0, black_pieces: 0 }
}

fn place(board: &mut Board, idx: usize, sq: Square) {
    board.squares[idx] = sq;
    match sq {
        Square::Man(Color::Red) | Square::King(Color::Red) => board.red_pieces += 1,
        Square::Man(Color::Black) | Square::King(Color::Black) => board.black_pieces += 1,
        Square::Empty => {}
    }
}

#[test]
fn initial_position_setup() {
    let b = Board::new();
    assert_eq!(b.red_pieces, 12);
    assert_eq!(b.black_pieces, 12);
    assert_eq!(b.turn, Color::Red);
    for i in 0..12 {
        assert_eq!(b.squares[i], Square::Man(Color::Black));
    }
    for i in 12..20 {
        assert_eq!(b.squares[i], Square::Empty);
    }
    for i in 20..32 {
        assert_eq!(b.squares[i], Square::Man(Color::Red));
    }
}

#[test]
fn coords_roundtrip_all_squares() {
    let b = Board::new();
    for i in 0..32 {
        let (r, c) = b.index_to_coords(i);
        assert!(r < 8 && c < 8);
        assert_eq!((r + c) % 2, 1);
        assert_eq!(b.coords_to_index(r as i32, c as i32), Some(i));
    }
}

#[test]
fn coords_to_index_rejects_bad_squares() {
    let b = Board::new();
    assert_eq!(b.coords_to_index(-1, 2), None);
    assert_eq!(b.coords_to_index(0, 8), None);
    // Light squares are not playable.
    assert_eq!(b.coords_to_index(0, 0), None);
    assert_eq!(b.coords_to_index(3, 5), None);
    // A couple of known dark squares.
    assert_eq!(b.coords_to_index(0, 1), Some(0));
    assert_eq!(b.coords_to_index(7, 6), Some(31));
}

#[test]
fn simple_advance_is_legal_and_applies() {
    let mut b = Board::new();
    // Red man on square 20 (row 5, column 0) advances to (4, 1) = square 16.
    let m = Move::new(20, 16, Vec::new());
    assert!(is_valid_move(&b, &m));
    assert!(b.make_move(&m).is_ok());
    assert_eq!(b.squares[20], Square::Empty);
    assert_eq!(b.squares[16], Square::Man(Color::Red));
    assert_eq!(b.turn, Color::Black);
    assert_eq!(b.red_pieces, 12);
    assert_eq!(b.black_pieces, 12);
}

#[test]
fn illegal_moves_are_rejected_without_change() {
    let mut b = Board::new();
    let before = b.squares.clone();
    // Backward move of a man.
    let backward = Move::new(20, 24, Vec::new());
    assert!(!is_valid_move(&b, &backward));
    assert!(b.make_move(&backward).is_err());
    // Move from an empty square.
    let from_empty = Move::new(13, 17, Vec::new());
    assert!(b.make_move(&from_empty).is_err());
    // Move of the opponent's piece.
    let wrong_side = Move::new(8, 12, Vec::new());
    assert!(b.make_move(&wrong_side).is_err());
    // Non-diagonal and out-of-range moves.
    let sideways = Move::new(20, 21, Vec::new());
    assert!(b.make_move(&sideways).is_err());
    let out_of_range = Move::new(20, 40, Vec::new());
    assert!(b.make_move(&out_of_range).is_err());
    assert_eq!(b.squares, before);
    assert_eq!(b.turn, Color::Red);
    assert_eq!(b.red_pieces, 12);
    assert_eq!(b.black_pieces, 12);
}

#[test]
fn capture_applies_and_decrements_count() {
    let mut b = empty_board(Color::Red);
    place(&mut b, 21, Square::Man(Color::Red)); // (5, 2)
    place(&mut b, 16, Square::Man(Color::Black)); // (4, 1)
    let m = Move::new(21, 12, vec![16]); // land on (3, 0)
    assert!(is_valid_move(&b, &m));
    assert!(b.make_move(&m).is_ok());
    assert_eq!(b.squares[21], Square::Empty);
    assert_eq!(b.squares[16], Square::Empty);
    assert_eq!(b.squares[12], Square::Man(Color::Red));
    assert_eq!(b.black_pieces, 0);
    assert_eq!(b.red_pieces, 1);
    assert_eq!(b.turn, Color::Black);
}

#[test]
fn simple_advance_illegal_while_capture_exists() {
    let mut b = empty_board(Color::Red);
    place(&mut b, 21, Square::Man(Color::Red));
    place(&mut b, 16, Square::Man(Color::Black));
    place(&mut b, 25, Square::Man(Color::Red)); // (6, 3), has quiet moves
    // The quiet move itself is geometrically fine, but a capture exists.
    let quiet = Move::new(25, 22, Vec::new());
    assert!(!is_valid_move(&b, &quiet));
    let jump = Move::new(21, 12, vec![16]);
    assert!(is_valid_move(&b, &jump));
}

#[test]
fn man_promotes_on_back_rank() {
    let mut b = empty_board(Color::Red);
    place(&mut b, 5, Square::Man(Color::Red)); // (1, 2)
    place(&mut b, 22, Square::Man(Color::Black)); // far away, no captures
    let m = Move::new(5, 0, Vec::new()); // to (0, 1), red's back rank
    assert!(is_valid_move(&b, &m));
    assert!(b.make_move(&m).is_ok());
    assert_eq!(b.squares[0], Square::King(Color::Red));
    assert_eq!(b.red_pieces, 1);
}

#[test]
fn king_is_not_promoted_again() {
    let mut b = empty_board(Color::Red);
    place(&mut b, 5, Square::King(Color::Red));
    place(&mut b, 22, Square::Man(Color::Black));
    let m = Move::new(5, 0, Vec::new());
    assert!(b.make_move(&m).is_ok());
    assert_eq!(b.squares[0], Square::King(Color::Red));
}

#[test]
fn man_short_of_back_rank_stays_a_man() {
    let mut b = empty_board(Color::Red);
    place(&mut b, 9, Square::Man(Color::Red)); // (2, 3)
    place(&mut b, 22, Square::Man(Color::Black));
    let m = Move::new(9, 5, Vec::new()); // to (1, 2)
    assert!(b.make_move(&m).is_ok());
    assert_eq!(b.squares[5], Square::Man(Color::Red));
}

#[test]
fn promote_checks_rank_and_kind() {
    let mut b = empty_board(Color::Red);
    place(&mut b, 0, Square::Man(Color::Red)); // red back rank
    place(&mut b, 31, Square::Man(Color::Black)); // black back rank
    place(&mut b, 13, Square::Man(Color::Red));
    place(&mut b, 1, Square::King(Color::Red));
    assert!(promote(&b, 0));
    assert!(promote(&b, 31));
    assert!(!promote(&b, 13));
    assert!(!promote(&b, 1)); // kings are never promoted
    assert!(!promote(&b, 2)); // empty square
}

#[test]
fn multi_jump_path_must_be_fully_valid() {
    let mut b = empty_board(Color::Red);
    place(&mut b, 21, Square::Man(Color::Red));
    place(&mut b, 16, Square::Man(Color::Black)); // (4, 1)
    place(&mut b, 8, Square::Man(Color::Black)); // (2, 1)
    // The genuine double jump (5,2) -> (3,0) -> (1,2).
    let good = Move::with_path(21, 5, vec![16, 8], vec![21, 12, 5]);
    assert!(is_valid_move(&b, &good));
    // Wrong capture list: the hopped square of the second segment is 8.
    let bad_caps = Move::with_path(21, 5, vec![16, 16], vec![21, 12, 5]);
    assert!(!is_valid_move(&b, &bad_caps));
    // A segment that is not a jump.
    let bad_path = Move::with_path(21, 13, vec![16, 8], vec![21, 12, 13]);
    assert!(!is_valid_move(&b, &bad_path));
}

#[test]
fn game_over_by_elimination_and_winner() {
    let mut b = empty_board(Color::Red);
    place(&mut b, 21, Square::Man(Color::Red));
    place(&mut b, 16, Square::Man(Color::Black));
    let m = Move::new(21, 12, vec![16]);
    assert!(!b.is_game_over());
    assert_eq!(b.get_winner(), None);
    assert!(b.make_move(&m).is_ok());
    assert!(b.is_game_over());
    assert_eq!(b.get_winner(), Some(Color::Red));
}

#[test]
fn apply_move_leaves_input_untouched() {
    let b = Board::new();
    let m = Move::new(20, 16, Vec::new());
    let b2 = b.apply_move(&m).expect("legal opening advance");
    assert_eq!(b.squares[20], Square::Man(Color::Red));
    assert_eq!(b2.squares[20], Square::Empty);
    assert_eq!(b2.squares[16], Square::Man(Color::Red));
    let rejected = b.apply_move(&Move::new(20, 24, Vec::new()));
    assert!(rejected.is_err());
}

#[test]
fn move_notation_fields() {
    let m = Move::new(21, 12, vec![16]);
    assert_eq!(m.from, 21);
    assert_eq!(m.to, 12);
    assert_eq!(m.path, vec![21, 12]);
    assert_eq!(m.captures, vec![16]);
    let w = Move::with_path(21, 5, vec![16, 8], vec![21, 12, 5]);
    assert_eq!(w.path, vec![21, 12, 5]);
    let d = w.duplicate();
    assert_eq!(d.from, w.from);
    assert_eq!(d.to, w.to);
    assert_eq!(d.captures, w.captures);
    assert_eq!(d.path, w.path);
}

#[test]
fn black_man_promotes_on_row_seven() {
    let mut b = empty_board(Color::Black);
    place(&mut b, 25, Square::Man(Color::Black)); // (6, 3)
    place(&mut b, 8, Square::Man(Color::Red)); // far away
    let m = Move::new(25, 29, Vec::new()); // to (7, 2), black's back rank
    assert!(is_valid_move(&b, &m));
    assert!(b.make_move(&m).is_ok());
    assert_eq!(b.squares[29], Square::King(Color::Black));
    assert_eq!(b.black_pieces, 1);
}

#[test]
fn black_capture_is_mandatory_too() {
    let mut b = empty_board(Color::Black);
    place(&mut b, 9, Square::Man(Color::Black)); // (2, 3)
    place(&mut b, 14, Square::Man(Color::Red)); // (3, 4)
    // Landing square (4, 5) = 18 is free, so black must jump down-right.
    let quiet = Move::new(9, 13, Vec::new());
    assert!(!is_valid_move(&b, &quiet));
    let jump = Move::new(9, 18, vec![14]);
    assert!(is_valid_move(&b, &jump));
    let moves = b.get_valid_moves();
    assert_eq!(moves.len(), 1);
    assert_eq!(moves[0].captures, vec![14]);
}

#[test]
fn king_moves_backward() {
    let mut b = empty_board(Color::Red);
    place(&mut b, 13, Square::King(Color::Red)); // (3, 2)
    place(&mut b, 0, Square::Man(Color::Black)); // far corner
    // A red king may move down the board; a red man may not.
    let back = Move::new(13, 17, Vec::new()); // to (4, 3)
    assert!(is_valid_move(&b, &back));
    let mut b2 = empty_board(Color::Red);
    place(&mut b2, 13, Square::Man(Color::Red));
    place(&mut b2, 0, Square::Man(Color::Black));
    assert!(!is_valid_move(&b2, &back));
}
